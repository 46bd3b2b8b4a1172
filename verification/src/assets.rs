use vstd::prelude::*;
use std::collections::HashMap;

verus! {

broadcast use vstd::std_specs::hash::group_hash_axioms;

/// The kinds of assets that the editor manages.
#[derive(Clone, Copy, Debug, PartialEq, Eq, Structural, Hash)]
pub enum AssetKind {
    UnitConfig,
    ItemConfig,
    FloorPartConfig,
    FloorPartAdjacencyConfig,
    FloorConfig,
    FloorFlowGraphConfig,
    ParameterConfig,
    TagConfig,
    EffectMechanicConfig,
    GameGonfig,
}

/// The position of a kind in the declaration order.
pub open spec fn kind_index(kind: AssetKind) -> int {
    match kind {
        AssetKind::UnitConfig => 0,
        AssetKind::ItemConfig => 1,
        AssetKind::FloorPartConfig => 2,
        AssetKind::FloorPartAdjacencyConfig => 3,
        AssetKind::FloorConfig => 4,
        AssetKind::FloorFlowGraphConfig => 5,
        AssetKind::ParameterConfig => 6,
        AssetKind::TagConfig => 7,
        AssetKind::EffectMechanicConfig => 8,
        AssetKind::GameGonfig => 9,
    }
}

/// The extension of the asset files of a kind.
pub open spec fn kind_extension(kind: AssetKind) -> Seq<char> {
    match kind {
        AssetKind::FloorPartConfig => ".part"@,
        _ => ".json5"@,
    }
}

/// The kinds whose assets are kept on disk and loaded at start.
pub open spec fn is_stored_kind(kind: AssetKind) -> bool {
    kind_index(kind) < 8
}

impl AssetKind {
    /// The position of the kind in the declaration order.
    pub fn index(&self) -> (res: usize)
        ensures
            res == kind_index(*self),
    {
        match self {
            AssetKind::UnitConfig => 0,
            AssetKind::ItemConfig => 1,
            AssetKind::FloorPartConfig => 2,
            AssetKind::FloorPartAdjacencyConfig => 3,
            AssetKind::FloorConfig => 4,
            AssetKind::FloorFlowGraphConfig => 5,
            AssetKind::ParameterConfig => 6,
            AssetKind::TagConfig => 7,
            AssetKind::EffectMechanicConfig => 8,
            AssetKind::GameGonfig => 9,
        }
    }

    /// The kinds whose assets are kept on disk, in the order in which they are loaded.
    pub fn stored_kinds() -> (res: Vec<AssetKind>)
        ensures
            res@.len() == 8,
            forall|i: int| 0 <= i < 8 ==> kind_index(#[trigger] res@[i]) == i,
    {
        vec![
            AssetKind::UnitConfig,
            AssetKind::ItemConfig,
            AssetKind::FloorPartConfig,
            AssetKind::FloorPartAdjacencyConfig,
            AssetKind::FloorConfig,
            AssetKind::FloorFlowGraphConfig,
            AssetKind::ParameterConfig,
            AssetKind::TagConfig,
        ]
    }

    /// The title of the kind in the editor.
    pub fn editor_label(&self) -> (res: &'static str)
        ensures
            res@ == match self {
                AssetKind::UnitConfig => "Персонажи"@,
                AssetKind::ItemConfig => "Предметы"@,
                AssetKind::FloorPartConfig => "Части этажей"@,
                AssetKind::FloorPartAdjacencyConfig => "Связи частей"@,
                AssetKind::FloorConfig => "Этажи"@,
                AssetKind::FloorFlowGraphConfig => "Граф этажей"@,
                AssetKind::ParameterConfig => "Черты"@,
                AssetKind::TagConfig => "Лычки"@,
                AssetKind::EffectMechanicConfig => "Механики эффектов"@,
                AssetKind::GameGonfig => "Игры"@,
            },
    {
        match self {
            AssetKind::UnitConfig => "Персонажи",
            AssetKind::ItemConfig => "Предметы",
            AssetKind::FloorPartConfig => "Части этажей",
            AssetKind::FloorPartAdjacencyConfig => "Связи частей",
            AssetKind::FloorConfig => "Этажи",
            AssetKind::FloorFlowGraphConfig => "Граф этажей",
            AssetKind::ParameterConfig => "Черты",
            AssetKind::TagConfig => "Лычки",
            AssetKind::EffectMechanicConfig => "Механики эффектов",
            AssetKind::GameGonfig => "Игры",
        }
    }

    /// The directory, below the assets directory, that holds the assets of the kind.
    pub fn asset_dir_name(&self) -> (res: &'static str)
        ensures
            res@ == match self {
                AssetKind::UnitConfig => "units"@,
                AssetKind::ItemConfig => "items"@,
                AssetKind::FloorPartConfig => "floor_parts"@,
                AssetKind::FloorPartAdjacencyConfig => "floor_part_adjacency"@,
                AssetKind::FloorConfig => "floors"@,
                AssetKind::FloorFlowGraphConfig => "floor_flow_graph"@,
                AssetKind::ParameterConfig => "parameters"@,
                AssetKind::TagConfig => "tags"@,
                AssetKind::EffectMechanicConfig => "effect_mechanics"@,
                AssetKind::GameGonfig => "games"@,
            },
    {
        match self {
            AssetKind::UnitConfig => "units",
            AssetKind::ItemConfig => "items",
            AssetKind::FloorPartConfig => "floor_parts",
            AssetKind::FloorPartAdjacencyConfig => "floor_part_adjacency",
            AssetKind::FloorConfig => "floors",
            AssetKind::FloorFlowGraphConfig => "floor_flow_graph",
            AssetKind::ParameterConfig => "parameters",
            AssetKind::TagConfig => "tags",
            AssetKind::EffectMechanicConfig => "effect_mechanics",
            AssetKind::GameGonfig => "games",
        }
    }

    /// The extension of the asset files of the kind.
    pub fn file_extension(&self) -> (res: &'static str)
        ensures
            res@ == kind_extension(*self),
    {
        match self {
            AssetKind::FloorPartConfig => ".part",
            _ => ".json5",
        }
    }
}


// ---------------------------------------------------------------------------
// Asset files.
// ---------------------------------------------------------------------------

/// `pat` stands in `s` from position `i` on.
pub open spec fn occurs_at(s: Seq<char>, pat: Seq<char>, i: int) -> bool {
    0 <= i && i + pat.len() <= s.len() && s.subrange(i, i + pat.len()) == pat
}

/// The first position, from `from` on, where `pat` stands in `s`; `s.len()` if there is none.
pub open spec fn first_occurrence(s: Seq<char>, pat: Seq<char>, from: int) -> int
    decreases s.len() - from,
{
    if from < 0 || from >= s.len() || from + pat.len() > s.len() {
        s.len() as int
    } else if occurs_at(s, pat, from) {
        from
    } else {
        first_occurrence(s, pat, from + 1)
    }
}

/// The part of a file name before the first occurrence of `ext`, if the name ends with
/// `ext`.
pub open spec fn file_stem(name: Seq<char>, ext: Seq<char>) -> Option<Seq<char>> {
    if ext.len() <= name.len() && occurs_at(name, ext, name.len() - ext.len()) {
        Some(name.subrange(0, first_occurrence(name, ext, 0)))
    } else {
        None
    }
}

/// The identifier that `uuid::Uuid::parse_str` reads from a text, or `None` where it
/// reports an error.
pub uninterp spec fn parsed_uuid(text: Seq<char>) -> Option<u128>;

/// `uuid::Uuid::parse_str`, then `Uuid::as_u128`: the identifier read from `text`, `None`
/// where the crate reports an error. What it accepts is left to the name `parsed_uuid`.
#[verifier::external_body]
fn parse_uuid(text: &str) -> (res: Option<u128>)
    ensures
        res == parsed_uuid(text@),
{
    match uuid::Uuid::parse_str(text) {
        Ok(id) => Some(id.as_u128()),
        Err(_) => None,
    }
}

/// What a file found in the directory of an asset kind is.
#[derive(Clone, Copy, Debug, PartialEq, Eq, Structural)]
pub enum AssetFile {
    /// Its name does not end with the kind's extension: it is not an asset file.
    Other,
    /// Its name ends with the extension, but what stands before it is no identifier.
    BadId,
    /// The file of the asset with this identifier.
    Asset(u128),
}

/// Whether `pat` stands in `s` from position `i` on.
fn text_occurs_at(s: &str, pat: &str, i: usize) -> (r: bool)
    requires
        i + pat@.len() <= s@.len(),
    ensures
        r == occurs_at(s@, pat@, i as int),
{
    let n = s.unicode_len();
    let m = pat.unicode_len();
    let mut k: usize = 0;
    while k < m
        invariant
            n == s@.len(),
            m == pat@.len(),
            i + m <= s@.len(),
            k <= m,
            forall|j: int| 0 <= j < k ==> s@[i + j] == pat@[j],
        decreases m - k,
    {
        if s.get_char(i + k) != pat.get_char(k) {
            proof {
                assert(s@.subrange(i as int, i + m)[k as int] != pat@[k as int]);
            }
            return false;
        }
        k += 1;
    }
    proof {
        assert(s@.subrange(i as int, i + m) =~= pat@);
    }
    true
}

/// Tells what a file of the directory of `kind` is, by its name: a name that ends with
/// the kind's extension names the asset whose identifier stands before the first
/// occurrence of the extension.
pub fn classify_asset_file(kind: AssetKind, file_name: &str) -> (res: AssetFile)
    ensures
        res == match file_stem(file_name@, kind_extension(kind)) {
            None => AssetFile::Other,
            Some(stem) => match parsed_uuid(stem) {
                Some(id) => AssetFile::Asset(id),
                None => AssetFile::BadId,
            },
        },
{
    let ext = kind.file_extension();
    let n = file_name.unicode_len();
    let m = ext.unicode_len();
    if m > n || !text_occurs_at(file_name, ext, n - m) {
        return AssetFile::Other;
    }
    let mut i: usize = 0;
    while !text_occurs_at(file_name, ext, i)
        invariant
            n == file_name@.len(),
            m == ext@.len(),
            m <= n,
            i <= n - m,
            occurs_at(file_name@, ext@, n - m),
            first_occurrence(file_name@, ext@, 0) == first_occurrence(file_name@, ext@, i as int),
        decreases n - m - i,
    {
        i += 1;
    }
    let stem = file_name.substring_char(0, i);
    match parse_uuid(stem) {
        Some(id) => AssetFile::Asset(id),
        None => AssetFile::BadId,
    }
}

// ---------------------------------------------------------------------------
// The asset database, held in memory.
// ---------------------------------------------------------------------------

/// An asset: its name and its bytes.
pub type AssetEntry = (String, Vec<u8>);

/// The assets of the editor, by kind and identifier, with the changes that are still to
/// be written to disk.
pub struct AssetDb {
    assets: Vec<HashMap<u128, AssetEntry>>,
    deleted_assets: Vec<(AssetKind, u128)>,
    changed_assets: Vec<(AssetKind, u128)>,
}

/// What [`AssetDb::flush_assets_to_disk`] hands over to be done on disk.
pub struct AssetFlush {
    /// Assets whose files are to be removed.
    pub removed: Vec<(AssetKind, u128)>,
    /// Assets whose bytes and name are to be written.
    pub written: Vec<(AssetKind, u128, String, Vec<u8>)>,
}

/// `std::str::from_utf8`: the text whose UTF-8 encoding is `bytes`; `None` exactly where
/// the bytes are not valid UTF-8.
#[verifier::external_body]
fn utf8_text(bytes: &[u8]) -> (res: Option<&str>)
    ensures
        res is Some <==> vstd::utf8::valid_utf8(bytes@),
        res matches Some(text) ==> vstd::utf8::encode_utf8(text@) == bytes@,
{
    std::str::from_utf8(bytes).ok()
}

#[verifier::external_type_specification]
#[verifier::external_body]
pub struct ExSystemTime(std::time::SystemTime);

/// `std::time::SystemTime::now`: the time of the system clock. Nothing is promised of it.
#[verifier::external_body]
fn system_time_now() -> std::time::SystemTime {
    std::time::SystemTime::now()
}

/// `SystemTime::duration_since(UNIX_EPOCH)`: how long after the Unix epoch `t` lies, `None`
/// for a time before it. Nothing is promised of the duration.
#[verifier::external_body]
fn since_unix_epoch(t: &std::time::SystemTime) -> Option<std::time::Duration> {
    t.duration_since(std::time::UNIX_EPOCH).ok()
}

/// `Duration::as_millis`: the whole milliseconds of a duration. Nothing is stated of the
/// value: a duration is opaque here.
#[verifier::external_body]
fn duration_millis(d: &std::time::Duration) -> u128 {
    d.as_millis()
}

/// `rand::random::<[u8; 10]>`: ten bytes from the thread's random generator. Nothing is
/// promised of their values.
#[verifier::external_body]
fn random_bytes() -> [u8; 10] {
    rand::random::<[u8; 10]>()
}

/// The version 7 identifier made of a millisecond timestamp and ten random bytes, as a number.
pub open spec fn uuid_v7_value(millis: u64, b: Seq<u8>) -> int {
    (millis as int % 0x1_0000_0000_0000) * 0x1_0000_0000_0000_0000_0000
        + 0x7000 * 0x1_0000_0000_0000_0000
        + ((b[0] as int % 16) * 256 + b[1] as int) * 0x1_0000_0000_0000_0000
        + (0x80 + b[2] as int % 64) * 0x100_0000_0000_0000
        + b[3] as int * 0x1_0000_0000_0000
        + b[4] as int * 0x100_0000_0000
        + b[5] as int * 0x1_0000_0000
        + b[6] as int * 0x100_0000
        + b[7] as int * 0x1_0000
        + b[8] as int * 0x100
        + b[9] as int
}

/// `uuid::Builder::from_unix_timestamp_millis`, then `into_uuid` and `Uuid::as_u128`: the
/// version 7 identifier whose bits are the 48 low bits of the timestamp, the version 7,
/// 12 bits of the first two bytes, the variant bits `10`, and 62 bits of the other bytes.
#[verifier::external_body]
fn uuid_from_millis(millis: u64, bytes: &[u8; 10]) -> (res: u128)
    ensures
        res as int == uuid_v7_value(millis, bytes@),
{
    uuid::Builder::from_unix_timestamp_millis(millis, bytes).into_uuid().as_u128()
}

/// Copies a byte slice.
fn bytes_to_vec(data: &[u8]) -> (res: Vec<u8>)
    ensures
        res@ == data@,
{
    let mut res: Vec<u8> = Vec::new();
    let mut i: usize = 0;
    while i < data.len()
        invariant
            i <= data@.len(),
            res@ == data@.take(i as int),
        decreases data@.len() - i,
    {
        res.push(data[i]);
        i += 1;
        proof {
            assert(data@.take(i as int) =~= data@.take(i - 1).push(data@[i - 1]));
        }
    }
    proof {
        assert(data@.take(data@.len() as int) =~= data@);
    }
    res
}

fn pair_contains(v: &Vec<(AssetKind, u128)>, kind: AssetKind, id: u128) -> (r: bool)
    ensures
        r == v@.contains((kind, id)),
{
    let mut k: usize = 0;
    while k < v.len()
        invariant
            k <= v@.len(),
            forall|j: int| 0 <= j < k ==> v@[j] != (kind, id),
        decreases v@.len() - k,
    {
        if v[k].0 == kind && v[k].1 == id {
            assert(v@[k as int] == (kind, id));
            return true;
        }
        k += 1;
    }
    false
}

/// Adds `(kind, id)` to a list that holds no pair twice.
fn insert_pair(v: &mut Vec<(AssetKind, u128)>, kind: AssetKind, id: u128)
    requires
        old(v)@.no_duplicates(),
    ensures
        final(v)@.no_duplicates(),
        final(v)@.to_set() == old(v)@.to_set().insert((kind, id)),
{
    broadcast use vstd::seq_lib::group_seq_properties;
    if !pair_contains(v, kind, id) {
        v.push((kind, id));
        proof {
            assert(final(v)@.to_set() =~= old(v)@.to_set().insert((kind, id)));
        }
    } else {
        proof {
            assert(old(v)@.to_set() =~= old(v)@.to_set().insert((kind, id)));
        }
    }
}

impl AssetDb {
    /// The database's fields are consistent.
    pub closed spec fn wf(&self) -> bool {
        &&& self.assets@.len() == 8
        &&& self.deleted_assets@.no_duplicates()
        &&& self.changed_assets@.no_duplicates()
    }

    /// The name and bytes of an asset, if the database holds it.
    pub closed spec fn asset(&self, kind: AssetKind, id: u128) -> Option<(Seq<char>, Seq<u8>)> {
        if is_stored_kind(kind) && self.assets@[kind_index(kind)]@.contains_key(id) {
            let entry = self.assets@[kind_index(kind)]@[id];
            Some((entry.0@, entry.1@))
        } else {
            None
        }
    }

    /// Assets deleted since the last flush.
    pub closed spec fn deleted(&self) -> Set<(AssetKind, u128)> {
        self.deleted_assets@.to_set()
    }

    /// Assets whose bytes changed since the last flush.
    pub closed spec fn changed(&self) -> Set<(AssetKind, u128)> {
        self.changed_assets@.to_set()
    }

    /// An empty database with room for the kinds kept on disk.
    pub fn new() -> (res: Self)
        ensures
            res.wf(),
            forall|kind: AssetKind, id: u128| res.asset(kind, id) is None,
            res.deleted() == Set::<(AssetKind, u128)>::empty(),
            res.changed() == Set::<(AssetKind, u128)>::empty(),
    {
        let mut assets: Vec<HashMap<u128, AssetEntry>> = Vec::new();
        let mut k: usize = 0;
        while k < 8
            invariant
                k <= 8,
                assets@.len() == k,
                forall|j: int| 0 <= j < k ==> (#[trigger] assets@[j])@ == Map::<u128, AssetEntry>::empty(),
            decreases 8 - k,
        {
            assets.push(HashMap::new());
            k += 1;
        }
        let res = AssetDb { assets, deleted_assets: Vec::new(), changed_assets: Vec::new() };
        proof {
            assert(res.deleted() =~= Set::<(AssetKind, u128)>::empty());
            assert(res.changed() =~= Set::<(AssetKind, u128)>::empty());
        }
        res
    }

    /// Puts an asset read from disk into the database; assets of kinds that are not kept
    /// on disk are ignored.
    pub fn insert_loaded_asset(&mut self, kind: AssetKind, id: u128, name: String, bytes: Vec<u8>)
        requires
            old(self).wf(),
        ensures
            final(self).wf(),
            forall|k: AssetKind, i: u128|
                #[trigger] final(self).asset(k, i) == if k == kind && i == id && is_stored_kind(kind) {
                    Some((name@, bytes@))
                } else {
                    old(self).asset(k, i)
                },
            final(self).deleted() == old(self).deleted(),
            final(self).changed() == old(self).changed(),
    {
        let idx = kind.index();
        if idx < 8 {
            self.assets[idx].insert(id, (name, bytes));
        }
    }

    /// The identifiers and names of the assets of a kind kept on disk, each once, in no
    /// particular order.
    pub fn list_all_assets(&self, kind: AssetKind) -> (res: Vec<(u128, String)>)
        requires
            self.wf(),
            is_stored_kind(kind),
        ensures
            forall|i: int, j: int|
                0 <= i < j < res@.len() ==> (#[trigger] res@[i]).0 != (#[trigger] res@[j]).0,
            forall|i: int|
                0 <= i < res@.len() ==> (self.asset(kind, (#[trigger] res@[i]).0) matches Some(
                    entry,
                ) && entry.0 == res@[i].1@),
            forall|id: u128|
                self.asset(kind, id) is Some ==> exists|i: int|
                    0 <= i < res@.len() && (#[trigger] res@[i]).0 == id,
    {
        let map = &self.assets[kind.index()];
        let mut res: Vec<(u128, String)> = Vec::new();
        for pair in it: map.iter()
            invariant
                it.seq().no_duplicates(),
                forall|i: int|
                    #![trigger it.seq()[i]]
                    0 <= i < it.seq().len() ==> map@.contains_key(*it.seq()[i].0) && map@[*it.seq()[i].0]
                        == *it.seq()[i].1,
                forall|k: u128| #[trigger] map@.contains_key(k) ==> it.seq().contains((&k, &map@[k])),
                res@.len() == it.index(),
                forall|i: int|
                    0 <= i < res@.len() ==> (#[trigger] res@[i]).0 == *it.seq()[i].0
                        && res@[i].1@ == it.seq()[i].1.0@,
                forall|i: int, j: int|
                    0 <= i < j < res@.len() ==> (#[trigger] res@[i]).0 != (#[trigger] res@[j]).0,
                forall|k: u128|
                    #[trigger] map@.contains_key(k) ==> (exists|i: int|
                        0 <= i < res@.len() && (#[trigger] res@[i]).0 == k) || (exists|i: int|
                        it.index() <= i < it.seq().len() && *(#[trigger] it.seq()[i]).0 == k),
        {
            let ghost n = res@.len() as int;
            let ghost before = res@;
            let (id, entry) = pair;
            res.push((*id, entry.0.clone()));
            proof {
                assert(it.index() == n);
                assert forall|i: int, j: int| 0 <= i < j < res@.len() implies (#[trigger] res@[i]).0
                    != (#[trigger] res@[j]).0 by {
                    if j == n {
                        let a = it.seq()[i];
                        let b = it.seq()[n];
                        assert(res@[i].0 == *a.0);
                        if *a.0 == *b.0 {
                            assert(*a.1 == map@[*a.0]);
                            assert(*b.1 == map@[*b.0]);
                            assert(a == b);
                        }
                    }
                }
                assert forall|k: u128| #[trigger] map@.contains_key(k) implies (exists|i: int|
                    0 <= i < res@.len() && (#[trigger] res@[i]).0 == k) || (exists|i: int|
                    n + 1 <= i < it.seq().len() && *(#[trigger] it.seq()[i]).0 == k) by {
                    if exists|i: int| 0 <= i < n && (#[trigger] before[i]).0 == k {
                        let i = choose|i: int| 0 <= i < n && (#[trigger] before[i]).0 == k;
                        assert(res@[i] == before[i]);
                    } else {
                        let i = choose|i: int| n <= i < it.seq().len() && *(#[trigger] it.seq()[i]).0 == k;
                        if i == n {
                            assert(res@[n].0 == k);
                        } else {
                            assert(n + 1 <= i);
                        }
                    }
                }
            }
        }
        res
    }

    /// Whether the database holds an asset.
    pub fn has_asset(&self, kind: AssetKind, id: u128) -> (res: bool)
        requires
            self.wf(),
        ensures
            res == self.asset(kind, id) is Some,
    {
        let idx = kind.index();
        idx < 8 && self.assets[idx].contains_key(&id)
    }

    /// The bytes of an asset.
    pub fn load_asset(&self, kind: AssetKind, id: u128) -> (res: &[u8])
        requires
            self.wf(),
            self.asset(kind, id) is Some,
        ensures
            res@ == self.asset(kind, id).unwrap().1,
    {
        let entry = self.assets[kind.index()].get(&id).unwrap();
        entry.1.as_slice()
    }

    /// The text of an asset.
    pub fn load_json5_asset(&self, kind: AssetKind, id: u128) -> (res: &str)
        requires
            self.wf(),
            self.asset(kind, id) is Some,
            vstd::utf8::valid_utf8(self.asset(kind, id).unwrap().1),
        ensures
            vstd::utf8::encode_utf8(res@) == self.asset(kind, id).unwrap().1,
    {
        utf8_text(self.load_asset(kind, id)).unwrap()
    }

    /// Stores an asset under the version 7 identifier made of the millisecond timestamp
    /// `millis` and the ten bytes `random`, and returns the identifier. Assets of kinds not
    /// kept on disk are not stored.
    pub fn create_asset_with(
        &mut self,
        kind: AssetKind,
        name: &str,
        data: &[u8],
        millis: u64,
        random: &[u8; 10],
    ) -> (res: u128)
        requires
            old(self).wf(),
        ensures
            final(self).wf(),
            res as int == uuid_v7_value(millis, random@),
            (res >> 76u128) & 0xFu128 == 7,
            (res >> 62u128) & 0x3u128 == 2,
            forall|k: AssetKind, i: u128|
                #[trigger] final(self).asset(k, i) == if k == kind && i == res && is_stored_kind(
                    kind,
                ) {
                    Some((name@, data@))
                } else {
                    old(self).asset(k, i)
                },
            final(self).deleted() == old(self).deleted(),
            final(self).changed() == old(self).changed(),
    {
        let uuid = uuid_from_millis(millis, random);
        proof {
            lemma_uuid_v7_bits(millis, random@, uuid);
        }
        let idx = kind.index();
        if idx < 8 {
            self.assets[idx].insert(uuid, (name.to_owned(), bytes_to_vec(data)));
        }
        uuid
    }

    /// Stores an asset under the version 7 identifier made of the millisecond timestamp
    /// `millis` and the ten bytes `random`, and returns the identifier; `None`, with nothing
    /// stored, where `millis` does not fit in the 64 bits that the identifier is built from.
    pub fn create_asset_at(
        &mut self,
        kind: AssetKind,
        name: &str,
        data: &[u8],
        millis: u128,
        random: &[u8; 10],
    ) -> (res: Option<u128>)
        requires
            old(self).wf(),
        ensures
            final(self).wf(),
            res is None <==> millis > u64::MAX,
            res is None ==> forall|k: AssetKind, i: u128| #[trigger] final(self).asset(k, i) == old(self).asset(k, i),
            res matches Some(id) ==> id as int == uuid_v7_value(millis as u64, random@),
            res matches Some(id) ==> (id >> 76u128) & 0xFu128 == 7 && (id >> 62u128) & 0x3u128 == 2,
            res matches Some(id) ==> forall|k: AssetKind, i: u128|
                #[trigger] final(self).asset(k, i) == if k == kind && i == id && is_stored_kind(
                    kind,
                ) {
                    Some((name@, data@))
                } else {
                    old(self).asset(k, i)
                },
            final(self).deleted() == old(self).deleted(),
            final(self).changed() == old(self).changed(),
    {
        if millis > 0xFFFF_FFFF_FFFF_FFFFu128 {
            return None;
        }
        Some(self.create_asset_with(kind, name, data, millis as u64, random))
    }

    /// Stores an asset under a fresh identifier made of the current time and random bytes,
    /// and returns the identifier; as [`AssetDb::create_asset_at`], with the milliseconds
    /// since the Unix epoch that the system clock gives and ten bytes of the thread's
    /// random generator. `None`, with nothing stored, where the clock lies before the epoch
    /// or its milliseconds do not fit in 64 bits.
    pub fn create_asset(&mut self, kind: AssetKind, name: &str, data: &[u8]) -> (res: Option<u128>)
        requires
            old(self).wf(),
        ensures
            final(self).wf(),
            res is None ==> forall|k: AssetKind, i: u128| #[trigger] final(self).asset(k, i) == old(self).asset(k, i),
            res matches Some(id) ==> (id >> 76u128) & 0xFu128 == 7 && (id >> 62u128) & 0x3u128 == 2,
            res matches Some(id) ==> forall|k: AssetKind, i: u128|
                #[trigger] final(self).asset(k, i) == if k == kind && i == id && is_stored_kind(
                    kind,
                ) {
                    Some((name@, data@))
                } else {
                    old(self).asset(k, i)
                },
            final(self).deleted() == old(self).deleted(),
            final(self).changed() == old(self).changed(),
    {
        let now = system_time_now();
        let since = match since_unix_epoch(&now) {
            Some(d) => d,
            None => {
                return None;
            },
        };
        let millis = duration_millis(&since);
        let bytes = random_bytes();
        self.create_asset_at(kind, name, data, millis, &bytes)
    }

    /// Stores a text asset, as [`AssetDb::create_asset`] does with its UTF-8 bytes.
    pub fn create_json5_asset(&mut self, kind: AssetKind, name: &str, text: &str) -> (res: Option<u128>)
        requires
            old(self).wf(),
        ensures
            final(self).wf(),
            res is None ==> forall|k: AssetKind, i: u128| #[trigger] final(self).asset(k, i) == old(self).asset(k, i),
            res matches Some(id) ==> (id >> 76u128) & 0xFu128 == 7 && (id >> 62u128) & 0x3u128 == 2,
            res matches Some(id) ==> forall|k: AssetKind, i: u128|
                #[trigger] final(self).asset(k, i) == if k == kind && i == id && is_stored_kind(
                    kind,
                ) {
                    Some((name@, vstd::utf8::encode_utf8(text@)))
                } else {
                    old(self).asset(k, i)
                },
            final(self).deleted() == old(self).deleted(),
            final(self).changed() == old(self).changed(),
    {
        self.create_asset(kind, name, text.as_bytes())
    }

    /// Replaces the bytes of an asset the database holds, and notes it as changed;
    /// does nothing for other assets.
    pub fn update_asset(&mut self, kind: AssetKind, id: u128, data: &[u8])
        requires
            old(self).wf(),
        ensures
            final(self).wf(),
            forall|k: AssetKind, i: u128|
                #[trigger] final(self).asset(k, i) == if k == kind && i == id && old(self).asset(
                    kind,
                    id,
                ) is Some {
                    Some((old(self).asset(kind, id).unwrap().0, data@))
                } else {
                    old(self).asset(k, i)
                },
            final(self).deleted() == old(self).deleted(),
            final(self).changed() == if old(self).asset(kind, id) is Some {
                old(self).changed().insert((kind, id))
            } else {
                old(self).changed()
            },
    {
        let idx = kind.index();
        if idx < 8 {
            let name = match self.assets[idx].get(&id) {
                Some(entry) => Some(entry.0.clone()),
                None => None,
            };
            if let Some(name) = name {
                self.assets[idx].insert(id, (name, bytes_to_vec(data)));
                insert_pair(&mut self.changed_assets, kind, id);
            }
        }
    }

    /// Replaces the text of an asset, as [`AssetDb::update_asset`] does with its UTF-8 bytes.
    pub fn update_json5_asset(&mut self, kind: AssetKind, id: u128, text: &str)
        requires
            old(self).wf(),
        ensures
            final(self).wf(),
            forall|k: AssetKind, i: u128|
                #[trigger] final(self).asset(k, i) == if k == kind && i == id && old(self).asset(
                    kind,
                    id,
                ) is Some {
                    Some((old(self).asset(kind, id).unwrap().0, vstd::utf8::encode_utf8(text@)))
                } else {
                    old(self).asset(k, i)
                },
            final(self).deleted() == old(self).deleted(),
            final(self).changed() == if old(self).asset(kind, id) is Some {
                old(self).changed().insert((kind, id))
            } else {
                old(self).changed()
            },
    {
        self.update_asset(kind, id, text.as_bytes())
    }

    /// Renames an asset the database holds; does nothing for other assets. The new name
    /// reaches the disk with the next flush only if the asset's bytes changed too.
    pub fn rename_asset(&mut self, kind: AssetKind, id: u128, name: &str)
        requires
            old(self).wf(),
        ensures
            final(self).wf(),
            forall|k: AssetKind, i: u128|
                #[trigger] final(self).asset(k, i) == if k == kind && i == id && old(self).asset(
                    kind,
                    id,
                ) is Some {
                    Some((name@, old(self).asset(kind, id).unwrap().1))
                } else {
                    old(self).asset(k, i)
                },
            final(self).deleted() == old(self).deleted(),
            final(self).changed() == old(self).changed(),
    {
        let idx = kind.index();
        if idx < 8 {
            let data = match self.assets[idx].get(&id) {
                Some(entry) => Some(entry.1.clone()),
                None => None,
            };
            if let Some(data) = data {
                self.assets[idx].insert(id, (name.to_owned(), data));
            }
        }
    }

    /// Removes an asset the database holds and notes it as deleted; does nothing for
    /// other assets.
    pub fn delete_asset(&mut self, kind: AssetKind, id: u128)
        requires
            old(self).wf(),
        ensures
            final(self).wf(),
            forall|k: AssetKind, i: u128|
                #[trigger] final(self).asset(k, i) == if k == kind && i == id {
                    None
                } else {
                    old(self).asset(k, i)
                },
            final(self).deleted() == if old(self).asset(kind, id) is Some {
                old(self).deleted().insert((kind, id))
            } else {
                old(self).deleted()
            },
            final(self).changed() == old(self).changed(),
    {
        let idx = kind.index();
        if idx >= 8 || !self.assets[idx].contains_key(&id) {
            return;
        }
        insert_pair(&mut self.deleted_assets, kind, id);
        self.assets[idx].remove(&id);
    }

    /// Takes the changes noted since the last flush: the assets whose files are to be
    /// removed, and the name and bytes of the changed assets that still exist. Both lists
    /// are emptied.
    pub fn flush_assets_to_disk(&mut self) -> (res: AssetFlush)
        requires
            old(self).wf(),
        ensures
            final(self).wf(),
            forall|k: AssetKind, i: u128| #[trigger] final(self).asset(k, i) == old(self).asset(k, i),
            final(self).deleted() == Set::<(AssetKind, u128)>::empty(),
            final(self).changed() == Set::<(AssetKind, u128)>::empty(),
            res.removed@.to_set() == old(self).deleted(),
            res.removed@.no_duplicates(),
            forall|j: int|
                0 <= j < res.written@.len() ==> old(self).changed().contains(
                    ((#[trigger] res.written@[j]).0, res.written@[j].1),
                ) && old(self).asset(res.written@[j].0, res.written@[j].1) == Some(
                    (res.written@[j].2@, res.written@[j].3@),
                ),
            forall|k: AssetKind, i: u128|
                old(self).changed().contains((k, i)) && old(self).asset(k, i) is Some ==> exists|
                    j: int,
                |
                    0 <= j < res.written@.len() && (#[trigger] res.written@[j]).0 == k
                        && res.written@[j].1 == i,
    {
        let mut removed: Vec<(AssetKind, u128)> = Vec::new();
        std::mem::swap(&mut removed, &mut self.deleted_assets);
        let mut changed: Vec<(AssetKind, u128)> = Vec::new();
        std::mem::swap(&mut changed, &mut self.changed_assets);
        let mut written: Vec<(AssetKind, u128, String, Vec<u8>)> = Vec::new();
        let mut j: usize = 0;
        while j < changed.len()
            invariant
                self.wf(),
                forall|k: AssetKind, i: u128| #[trigger] self.asset(k, i) == old(self).asset(k, i),
                changed@ == old(self).changed_assets@,
                j <= changed@.len(),
                forall|q: int|
                    0 <= q < written@.len() ==> changed@.contains(
                        ((#[trigger] written@[q]).0, written@[q].1),
                    ) && self.asset(written@[q].0, written@[q].1) == Some(
                        (written@[q].2@, written@[q].3@),
                    ),
                forall|q: int|
                    0 <= q < j && self.asset(changed@[q].0, changed@[q].1) is Some ==> exists|
                        p: int,
                    |
                        0 <= p < written@.len() && (#[trigger] written@[p]).0 == changed@[q].0
                            && written@[p].1 == changed@[q].1,
            decreases changed@.len() - j,
        {
            let ghost before = written@;
            let (kind, id) = changed[j];
            let idx = kind.index();
            if idx < 8 {
                if let Some(entry) = self.assets[idx].get(&id) {
                    written.push((kind, id, entry.0.clone(), entry.1.clone()));
                    proof {
                        assert(changed@.contains(changed@[j as int]));
                    }
                }
            }
            proof {
                assert forall|q: int|
                    0 <= q <= j && self.asset(changed@[q].0, changed@[q].1) is Some implies exists|
                        p: int,
                    |
                        0 <= p < written@.len() && (#[trigger] written@[p]).0 == changed@[q].0
                            && written@[p].1 == changed@[q].1 by {
                    if q == j {
                        assert(written@[written@.len() - 1].0 == changed@[q].0);
                    } else {
                        let p = choose|p: int|
                            0 <= p < before.len() && (#[trigger] before[p]).0 == changed@[q].0
                                && before[p].1 == changed@[q].1;
                        assert(written@[p] == before[p]);
                    }
                }
            }
            j += 1;
        }
        proof {
            assert(self.deleted() =~= Set::<(AssetKind, u128)>::empty());
            assert(self.changed() =~= Set::<(AssetKind, u128)>::empty());
            assert forall|k: AssetKind, i: u128|
                old(self).changed().contains((k, i)) && old(self).asset(k, i) is Some implies exists|
                    p: int,
                |
                    0 <= p < written@.len() && (#[trigger] written@[p]).0 == k && written@[p].1
                        == i by {
                let q = choose|q: int| 0 <= q < changed@.len() && changed@[q] == (k, i);
            }
        }
        AssetFlush { removed, written }
    }
}

proof fn lemma_uuid_v7_bits(millis: u64, b: Seq<u8>, id: u128)
    requires
        b.len() == 10,
        id as int == uuid_v7_value(millis, b),
    ensures
        (id >> 76u128) & 0xFu128 == 7,
        (id >> 62u128) & 0x3u128 == 2,
{
    let t = millis as int % 0x1_0000_0000_0000;
    let hi = (b[0] as int % 16) * 256 + b[1] as int;
    let lo = (b[2] as int % 64) * 0x100_0000_0000_0000 + b[3] as int * 0x1_0000_0000_0000
        + b[4] as int * 0x100_0000_0000 + b[5] as int * 0x1_0000_0000 + b[6] as int * 0x100_0000
        + b[7] as int * 0x1_0000 + b[8] as int * 0x100 + b[9] as int;
    assert(0 <= hi < 4096);
    assert(0 <= lo < 0x4000_0000_0000_0000);
    assert(id as int == t * 0x1_0000_0000_0000_0000_0000 + (0x7000 + hi) * 0x1_0000_0000_0000_0000
        + 0x8000_0000_0000_0000 + lo);
    let x = id;
    let tt = t as u128;
    let hh = hi as u128;
    let ll = lo as u128;
    assert(x == tt * 0x1_0000_0000_0000_0000_0000u128 + (0x7000u128 + hh) * 0x1_0000_0000_0000_0000u128
        + 0x8000_0000_0000_0000u128 + ll);
    assert((x >> 76u128) & 0xFu128 == 7 && (x >> 62u128) & 0x3u128 == 2) by (bit_vector)
        requires
            tt < 0x1_0000_0000_0000u128,
            hh < 4096u128,
            ll < 0x4000_0000_0000_0000u128,
            x == tt * 0x1_0000_0000_0000_0000_0000u128 + (0x7000u128 + hh)
                * 0x1_0000_0000_0000_0000u128 + 0x8000_0000_0000_0000u128 + ll,
    ;
}
} // verus!
