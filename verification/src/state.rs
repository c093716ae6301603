//! What the tool remembers between runs.
use crate::config::optional_text;
use crate::names::{
    bytes_before, in_order, law_listing_is_complete_and_ordered, lemma_listing_exists, texts, NameSet,
};
use vstd::prelude::*;
use vstd::utf8::encode_utf8;

verus! {

/// Persistent state.
pub struct State {
    /// Mirrors created/adopted and currently managed by this tool.
    pub managed: NameSet,
    /// Repos the user intentionally un-mirrored or deleted; never re-created.
    /// Remove an entry here by hand to let the tool mirror it again.
    pub blacklist: NameSet,
    /// SHA-256 of the source token last seen, to detect rotation at startup.
    pub token_fingerprint: Option<String>,
}

/// What a state holds.
pub ghost struct StateView {
    pub managed: Set<Seq<char>>,
    pub blacklist: Set<Seq<char>>,
    pub token_fingerprint: Option<Seq<char>>,
}

impl View for State {
    type V = StateView;

    open spec fn view(&self) -> StateView {
        StateView {
            managed: self.managed@,
            blacklist: self.blacklist@,
            token_fingerprint: optional_text(self.token_fingerprint),
        }
    }
}

/// A state as its file holds it.
#[derive(Debug, PartialEq, Eq)]
pub struct StateRecord {
    pub managed: Vec<String>,
    pub blacklist: Vec<String>,
    pub token_fingerprint: Option<String>,
}

/// What a record holds.
pub ghost struct RecordView {
    pub managed: Seq<Seq<char>>,
    pub blacklist: Seq<Seq<char>>,
    pub token_fingerprint: Option<Seq<char>>,
}

impl View for StateRecord {
    type V = RecordView;

    open spec fn view(&self) -> RecordView {
        RecordView {
            managed: texts(self.managed@),
            blacklist: texts(self.blacklist@),
            token_fingerprint: optional_text(self.token_fingerprint),
        }
    }
}

/// The state that a record stands for; that of a missing file is empty.
pub open spec fn loaded(record: Option<RecordView>) -> StateView {
    match record {
        Some(record) => StateView {
            managed: record.managed.to_set(),
            blacklist: record.blacklist.to_set(),
            token_fingerprint: record.token_fingerprint,
        },
        None => StateView {
            managed: Set::empty(),
            blacklist: Set::empty(),
            token_fingerprint: None,
        },
    }
}

/// The record of a state: its names are listed in order.
pub open spec fn saved(state: StateView) -> RecordView {
    RecordView {
        managed: in_order(state.managed),
        blacklist: in_order(state.blacklist),
        token_fingerprint: state.token_fingerprint,
    }
}

impl State {
    /// The state that the file holds; `None` stands for a file that is not there.
    pub fn load(record: Option<StateRecord>) -> (r: State)
        ensures
            r@ == loaded(
                match record {
                    Some(record) => Some(record@),
                    None => None,
                },
            ),
    {
        match record {
            Some(record) => State {
                managed: NameSet::from_vec(&record.managed),
                blacklist: NameSet::from_vec(&record.blacklist),
                token_fingerprint: record.token_fingerprint,
            },
            None => State {
                managed: NameSet::new(),
                blacklist: NameSet::new(),
                token_fingerprint: None,
            },
        }
    }

    /// What the file is to hold.
    pub fn save(&self) -> (r: StateRecord)
        ensures
            r@ == saved(self@),
            loaded(Some(r@)) == self@,
    {
        StateRecord {
            managed: self.managed.to_vec(),
            blacklist: self.blacklist.to_vec(),
            token_fingerprint: self.token_fingerprint.clone(),
        }
    }
}

/// The name of the file that is written first and then renamed, so that a crash
/// cannot leave half a state behind.
pub fn temp_file_name(file_name: &str) -> (r: String)
    ensures
        r@ == file_name@ + ".tmp"@,
{
    file_name.to_owned().concat(".tmp")
}

/// Loading what was saved gives the state back.
pub proof fn law_saved_state_loads_back(state: StateView)
    requires
        state.managed.finite(),
        state.blacklist.finite(),
    ensures
        loaded(Some(saved(state))) == state,
{
    lemma_listing_exists(state.managed);
    lemma_listing_exists(state.blacklist);
}

/// What SHA-256 makes of the data.
pub uninterp spec fn sha256_digest(data: Seq<u8>) -> Seq<u8>;

/// `sha2::Sha256::digest`: the SHA-256 digest of the data, which is 32 bytes long.
/// The digest depends on the data alone; it is named, not spelled out.
#[verifier::external_body]
fn sha256(data: &[u8]) -> (r: Vec<u8>)
    ensures
        r@ == sha256_digest(data@),
        r@.len() == 32,
{
    <sha2::Sha256 as sha2::Digest>::digest(data).to_vec()
}

/// The hexadecimal digit of a number below sixteen, in lower case.
pub open spec fn hex_digit(d: int) -> char {
    if d < 10 {
        (48 + d) as char
    } else {
        (87 + d) as char
    }
}

/// The bytes in hexadecimal, two digits each, the higher one first.
pub open spec fn hex_text(bytes: Seq<u8>) -> Seq<char> {
    Seq::new(
        2 * bytes.len(),
        |i: int|
            hex_digit(
                if i % 2 == 0 {
                    bytes[i / 2] as int / 16
                } else {
                    bytes[i / 2] as int % 16
                },
            ),
    )
}

fn to_hex_digit(d: u8) -> (c: char)
    requires
        d < 16,
    ensures
        c == hex_digit(d as int),
{
    if d < 10 {
        (48 + d) as char
    } else {
        (87 + d) as char
    }
}

/// Writes bytes in hexadecimal.
pub fn to_hex(bytes: &Vec<u8>) -> (r: String)
    ensures
        r@ == hex_text(bytes@),
{
    let mut r = String::new();
    let mut i: usize = 0;
    assert(hex_text(bytes@.take(0)) =~= Seq::empty());
    while i < bytes.len()
        invariant
            i <= bytes@.len(),
            r@ == hex_text(bytes@.take(i as int)),
        decreases bytes@.len() - i,
    {
        r.push(to_hex_digit(bytes[i] / 16));
        r.push(to_hex_digit(bytes[i] % 16));
        i = i + 1;
        assert(r@ =~= hex_text(bytes@.take(i as int)));
    }
    assert(bytes@.take(i as int) == bytes@);
    r
}

/// The fingerprint of a secret.
pub open spec fn fingerprint_of(token: Seq<char>) -> Seq<char> {
    hex_text(sha256_digest(encode_utf8(token)))
}

/// Stable fingerprint of a secret (we never persist the secret itself).
pub fn fingerprint(token: &str) -> (r: String)
    ensures
        r@ == fingerprint_of(token@),
        r@.len() == 64,
{
    let digest = sha256(token.as_bytes());
    to_hex(&digest)
}

/// Fingerprints of two secrets are the same exactly where their digests are.
pub proof fn law_fingerprints_tell_digests_apart(a: Seq<char>, b: Seq<char>)
    ensures
        fingerprint_of(a) == fingerprint_of(b) <==> sha256_digest(encode_utf8(a)) == sha256_digest(
            encode_utf8(b),
        ),
{
    lemma_hex_text(sha256_digest(encode_utf8(a)), sha256_digest(encode_utf8(b)));
}

proof fn lemma_hex_text(a: Seq<u8>, b: Seq<u8>)
    ensures
        hex_text(a) == hex_text(b) <==> a == b,
{
    if hex_text(a) == hex_text(b) {
        assert(hex_text(a).len() == hex_text(b).len());
        assert forall|i: int| 0 <= i < a.len() implies a[i] == b[i] by {
            assert(hex_text(a)[2 * i] == hex_text(b)[2 * i]);
            assert(hex_text(a)[2 * i + 1] == hex_text(b)[2 * i + 1]);
            lemma_hex_digit(a[i] as int / 16, b[i] as int / 16);
            lemma_hex_digit(a[i] as int % 16, b[i] as int % 16);
        }
        assert(a == b);
    }
}

proof fn lemma_hex_digit(x: int, y: int)
    requires
        0 <= x < 16,
        0 <= y < 16,
        hex_digit(x) == hex_digit(y),
    ensures
        x == y,
{
}

/// A state that is loaded has exactly the names that its record lists, and its
/// fingerprint; without a record it has nothing.
pub proof fn law_loading_keeps_every_name(record: RecordView, name: Seq<char>)
    ensures
        loaded(Some(record)).managed.contains(name) <==> record.managed.contains(name),
        loaded(Some(record)).blacklist.contains(name) <==> record.blacklist.contains(name),
        loaded(Some(record)).token_fingerprint == record.token_fingerprint,
        !loaded(None).managed.contains(name),
        !loaded(None).blacklist.contains(name),
        loaded(None).token_fingerprint is None,
{
}

/// A record lists exactly the names that its state has, in the order of their UTF-8
/// bytes, and holds the fingerprint.
pub proof fn law_saving_keeps_every_name(state: StateView, name: Seq<char>)
    requires
        state.managed.finite(),
        state.blacklist.finite(),
    ensures
        saved(state).managed.contains(name) <==> state.managed.contains(name),
        saved(state).blacklist.contains(name) <==> state.blacklist.contains(name),
        saved(state).token_fingerprint == state.token_fingerprint,
        forall|i: int, j: int|
            0 <= i < j < saved(state).managed.len() ==> bytes_before(
                encode_utf8(#[trigger] saved(state).managed[i]),
                encode_utf8(#[trigger] saved(state).managed[j]),
            ),
        forall|i: int, j: int|
            0 <= i < j < saved(state).blacklist.len() ==> bytes_before(
                encode_utf8(#[trigger] saved(state).blacklist[i]),
                encode_utf8(#[trigger] saved(state).blacklist[j]),
            ),
{
    law_listing_is_complete_and_ordered(state.managed);
    law_listing_is_complete_and_ordered(state.blacklist);
}

/// A state and a record hold what their fields hold.
pub proof fn law_state_is_its_fields(state: State, record: StateRecord)
    ensures
        state@.managed == state.managed@,
        state@.blacklist == state.blacklist@,
        state.token_fingerprint matches Some(f) ==> state@.token_fingerprint == Some(f@),
        state.token_fingerprint is None ==> state@.token_fingerprint is None,
        record@.managed.len() == record.managed@.len(),
        record@.blacklist.len() == record.blacklist@.len(),
        forall|i: int| 0 <= i < record.managed@.len() ==> #[trigger] record@.managed[i] == record.managed@[i]@,
        forall|i: int|
            0 <= i < record.blacklist@.len() ==> #[trigger] record@.blacklist[i] == record.blacklist@[i]@,
        record.token_fingerprint matches Some(f) ==> record@.token_fingerprint == Some(f@),
        record.token_fingerprint is None ==> record@.token_fingerprint is None,
{
}

/// The number that a hexadecimal digit in lower case stands for.
pub open spec fn hex_value(c: char) -> int {
    if '0' <= c && c <= '9' {
        c as int - '0' as int
    } else if 'a' <= c && c <= 'f' {
        10 + (c as int - 'a' as int)
    } else {
        -1
    }
}

/// The bytes read back from their hexadecimal digits, two for each, the higher one
/// first.
pub proof fn law_hex_reads_back(bytes: Seq<u8>)
    ensures
        hex_text(bytes).len() == 2 * bytes.len(),
        forall|i: int| 0 <= i < hex_text(bytes).len() ==> 0 <= hex_value(#[trigger] hex_text(bytes)[i]) < 16,
        forall|i: int|
            0 <= i < bytes.len() ==> #[trigger] bytes[i] as int == 16 * hex_value(hex_text(bytes)[2 * i])
                + hex_value(hex_text(bytes)[2 * i + 1]),
{
    assert forall|i: int| 0 <= i < bytes.len() implies #[trigger] bytes[i] as int == 16 * hex_value(
        hex_text(bytes)[2 * i],
    ) + hex_value(hex_text(bytes)[2 * i + 1]) by {
        let b = bytes[i] as int;
        assert((2 * i) / 2 == i && (2 * i + 1) / 2 == i && (2 * i) % 2 == 0 && (2 * i + 1) % 2 == 1);
        assert(hex_text(bytes)[2 * i] == hex_digit(b / 16));
        assert(hex_text(bytes)[2 * i + 1] == hex_digit(b % 16));
        assert(0 <= b / 16 < 16 && 0 <= b % 16 < 16 && b == 16 * (b / 16) + b % 16);
        assert(hex_value(hex_digit(b / 16)) == b / 16);
        assert(hex_value(hex_digit(b % 16)) == b % 16);
    }
    assert forall|i: int| 0 <= i < hex_text(bytes).len() implies 0 <= hex_value(
        #[trigger] hex_text(bytes)[i],
    ) < 16 by {
        let b = bytes[i / 2] as int;
        assert(0 <= b / 16 < 16 && 0 <= b % 16 < 16);
    }
}

/// A fingerprint reads back, digit by digit, as the SHA-256 digest of the bytes of the
/// secret.
pub proof fn law_fingerprint_is_the_digest(token: Seq<char>, i: int)
    requires
        0 <= i < sha256_digest(encode_utf8(token)).len(),
    ensures
        fingerprint_of(token).len() == 2 * sha256_digest(encode_utf8(token)).len(),
        sha256_digest(encode_utf8(token))[i] as int == 16 * hex_value(fingerprint_of(token)[2 * i])
            + hex_value(fingerprint_of(token)[2 * i + 1]),
{
    law_hex_reads_back(sha256_digest(encode_utf8(token)));
}

} // verus!
