use vstd::prelude::*;
use crate::app::MainMenuCommand;
use crate::app_stage::AppStageStatus;

verus! {

/// How a main menu button is drawn.
#[derive(Clone, Copy, Debug, PartialEq, Eq, Structural)]
pub enum ButtonState {
    Idle,
    Hover,
    Clicked,
}

impl ButtonState {
    /// The state of a button under the mouse or not, with the left button held or not.
    pub fn of(hovered: bool, mouse_down: bool) -> (res: Self)
        ensures
            res == if hovered && mouse_down {
                ButtonState::Clicked
            } else if hovered {
                ButtonState::Hover
            } else {
                ButtonState::Idle
            },
    {
        if hovered && mouse_down {
            ButtonState::Clicked
        } else if hovered {
            ButtonState::Hover
        } else {
            ButtonState::Idle
        }
    }

    /// The key of the state's picture among a button's pictures in the menu atlas.
    pub fn key(&self) -> (res: &'static str)
        ensures
            res@ == match self {
                ButtonState::Idle => "idle"@,
                ButtonState::Hover => "hover"@,
                ButtonState::Clicked => "clicked"@,
            },
    {
        match self {
            ButtonState::Idle => "idle",
            ButtonState::Hover => "hover",
            ButtonState::Clicked => "clicked",
        }
    }
}

/// Where a label or button given in tiles lies on screen, in pixels.
pub fn tile_position(pos: [u8; 2], tile_size: [u8; 2]) -> (res: (i32, i32))
    ensures
        res.0 == pos[0] * tile_size[0],
        res.1 == pos[1] * tile_size[1],
        0 <= res.0 <= 255 * 255,
        0 <= res.1 <= 255 * 255,
{
    proof {
        assert(0 <= pos[0] * tile_size[0] <= 255 * 255) by (nonlinear_arith)
            requires
                pos[0] <= 255,
                tile_size[0] <= 255,
        ;
        assert(0 <= pos[1] * tile_size[1] <= 255 * 255) by (nonlinear_arith)
            requires
                pos[1] <= 255,
                tile_size[1] <= 255,
        ;
    }
    (pos[0] as i32 * tile_size[0] as i32, pos[1] as i32 * tile_size[1] as i32)
}

/// The area of a button that reacts to the mouse: the button's tiles without its border
/// of one tile, as its top-left and bottom-right corners in pixels.
pub fn button_hitbox(pos: [u8; 2], size: [u8; 2], tile_size: [u8; 2]) -> (res: ((i32, i32), (i32, i32)))
    ensures
        res.0.0 == pos[0] * tile_size[0] + tile_size[0],
        res.0.1 == pos[1] * tile_size[1] + tile_size[1],
        res.1.0 == res.0.0 + (size[0] - 2) * tile_size[0],
        res.1.1 == res.0.1 + (size[1] - 2) * tile_size[1],
{
    let (x, y) = tile_position(pos, tile_size);
    proof {
        assert(-2 * 255 <= (size[0] - 2) * tile_size[0] <= 255 * 255) by (nonlinear_arith)
            requires
                size[0] <= 255,
                tile_size[0] <= 255,
        ;
        assert(-2 * 255 <= (size[1] - 2) * tile_size[1] <= 255 * 255) by (nonlinear_arith)
            requires
                size[1] <= 255,
                tile_size[1] <= 255,
        ;
    }
    let left = x + tile_size[0] as i32;
    let width = (size[0] as i32 - 2) * tile_size[0] as i32;
    let top = y + tile_size[1] as i32;
    let height = (size[1] as i32 - 2) * tile_size[1] as i32;
    ((left, top), (left + width, top + height))
}

/// Whether text `a` is `b`.
fn text_is(a: &str, b: &str) -> (r: bool)
    ensures
        r == (a@ == b@),
{
    let n = a.unicode_len();
    if n != b.unicode_len() {
        return false;
    }
    let mut k: usize = 0;
    while k < n
        invariant
            n == a@.len(),
            n == b@.len(),
            k <= n,
            forall|j: int| 0 <= j < k ==> a@[j] == b@[j],
        decreases n - k,
    {
        if a.get_char(k) != b.get_char(k) {
            return false;
        }
        k += 1;
    }
    proof {
        assert(a@ =~= b@);
    }
    true
}

/// Whether a button shown under condition `cond` is shown: donations are not active yet,
/// the old game can be opened where a save exists, and unknown conditions hide their
/// button.
pub fn check_condition(cond: &str, save_exists: bool) -> (res: bool)
    ensures
        res == (cond@ == "save_exists"@ && save_exists),
{
    if text_is(cond, "donate_active") {
        proof {
            reveal_strlit("donate_active");
            reveal_strlit("save_exists");
            assert(cond@[0] == 'd');
        }
        false
    } else if text_is(cond, "save_exists") {
        save_exists
    } else {
        false
    }
}

/// A button of the main menu as one frame sees it: the command it stands for, whether it
/// is shown (it has no condition, or its condition holds) and whether the mouse is over
/// its hitbox.
#[derive(Clone, Copy, Debug, PartialEq, Eq, Structural)]
pub struct MenuButton {
    pub command: MainMenuCommand,
    pub shown: bool,
    pub hovered: bool,
}

/// A button that a release of the mouse clicks.
pub open spec fn is_hit(b: MenuButton) -> bool {
    b.shown && b.hovered
}

/// What the main menu tells after a frame: when the left mouse button was released, the
/// command of the first shown button under the mouse, in the order the buttons are
/// walked; otherwise the menu goes on.
pub fn menu_status(mouse_released: bool, buttons: &Vec<MenuButton>) -> (res: AppStageStatus<MainMenuCommand>)
    ensures
        !mouse_released ==> res == AppStageStatus::<MainMenuCommand>::Continue,
        mouse_released ==> match res {
            AppStageStatus::Complete(cmd) => exists|i: int|
                0 <= i < buttons@.len() && #[trigger] is_hit(buttons@[i]) && buttons@[i].command == cmd
                    && forall|j: int| 0 <= j < i ==> !is_hit(#[trigger] buttons@[j]),
            AppStageStatus::Continue => forall|i: int|
                0 <= i < buttons@.len() ==> !is_hit(#[trigger] buttons@[i]),
        },
{
    if !mouse_released {
        return AppStageStatus::Continue;
    }
    let mut k: usize = 0;
    while k < buttons.len()
        invariant
            mouse_released,
            k <= buttons@.len(),
            forall|j: int| 0 <= j < k ==> !is_hit(#[trigger] buttons@[j]),
        decreases buttons@.len() - k,
    {
        let b = buttons[k];
        if b.shown && b.hovered {
            proof {
                assert(is_hit(buttons@[k as int]));
            }
            return AppStageStatus::Complete(b.command);
        }
        k += 1;
    }
    AppStageStatus::Continue
}

} // verus!
