use std::collections::HashMap;
use std::path::PathBuf;
use vstd::prelude::*;
use vstd::std_specs::iter::IteratorSpec;
use vstd::string::StringExecFns;

verus! {

broadcast use vstd::std_specs::hash::group_hash_axioms;

/// `asefile::AsepriteFile` is the parsed content of an Aseprite file. This
/// index stores such values verbatim and never looks inside them, so the type
/// is declared opaque here; all parsing belongs to the `asefile` crate.
#[verifier::external_type_specification]
#[verifier::external_body]
pub struct ExAsepriteFile(asefile::AsepriteFile);

/// `std::path::PathBuf` is the path a file was loaded from. It too is stored
/// verbatim and never inspected, so it is declared opaque here.
#[verifier::external_type_specification]
#[verifier::external_body]
pub struct ExPathBuf(PathBuf);

/// Unique identifier for an Aseprite file.
#[derive(Debug, Clone, Copy, PartialEq, Eq, Hash, Structural)]
pub struct AseId(pub u32);

/// The character for a single decimal digit.
pub open spec fn digit_char(d: int) -> char {
    if d == 0 {
        '0'
    } else if d == 1 {
        '1'
    } else if d == 2 {
        '2'
    } else if d == 3 {
        '3'
    } else if d == 4 {
        '4'
    } else if d == 5 {
        '5'
    } else if d == 6 {
        '6'
    } else if d == 7 {
        '7'
    } else if d == 8 {
        '8'
    } else {
        '9'
    }
}

/// The decimal rendering of a non-negative integer, most significant digit
/// first, with no leading zeros (a single `'0'` for zero itself).
pub open spec fn dec_chars(n: int) -> Seq<char>
    decreases n,
{
    if n < 10 {
        seq![digit_char(n)]
    } else {
        dec_chars(n / 10).push(digit_char(n % 10))
    }
}

/// The display form of an identifier holding `n`: the characters of
/// `AseId(<n>)`.
pub open spec fn ase_id_chars(n: int) -> Seq<char> {
    seq!['A', 's', 'e', 'I', 'd', '('] + dec_chars(n) + seq![')']
}

/// Appends the character for the decimal digit `d` to `s`.
fn append_digit(s: &mut String, d: u32)
    requires
        d < 10,
    ensures
        final(s)@ == old(s)@.push(digit_char(d as int)),
{
    let t: &str = if d == 0 {
        "0"
    } else if d == 1 {
        "1"
    } else if d == 2 {
        "2"
    } else if d == 3 {
        "3"
    } else if d == 4 {
        "4"
    } else if d == 5 {
        "5"
    } else if d == 6 {
        "6"
    } else if d == 7 {
        "7"
    } else if d == 8 {
        "8"
    } else {
        "9"
    };
    proof {
        reveal_strlit("0");
        reveal_strlit("1");
        reveal_strlit("2");
        reveal_strlit("3");
        reveal_strlit("4");
        reveal_strlit("5");
        reveal_strlit("6");
        reveal_strlit("7");
        reveal_strlit("8");
        reveal_strlit("9");
        assert(t@ =~= seq![digit_char(d as int)]);
    }
    s.append(t);
    proof {
        assert(s@ =~= old(s)@.push(digit_char(d as int)));
    }
}

/// Appends the decimal rendering of `n` to `s`.
fn append_dec(s: &mut String, n: u32)
    ensures
        final(s)@ == old(s)@ + dec_chars(n as int),
    decreases n,
{
    if n >= 10 {
        append_dec(s, n / 10);
    }
    append_digit(s, n % 10);
    proof {
        assert(s@ =~= old(s)@ + dec_chars(n as int));
    }
}

impl AseId {
    /// Creates a new AseId over a u32 value.
    /// During asset loading, AseId values are generated by wrapping the file index.
    pub fn new(inner: u32) -> (id: Self)
        ensures
            id == AseId(inner),
    {
        Self(inner)
    }

    /// Returns a reference to the AseId's underlying u32 value.
    pub fn inner(&self) -> (v: &u32)
        ensures
            *v == self.0,
    {
        &self.0
    }

    /// The diagnostic rendering of this identifier: `AseId(<value>)`.
    pub fn to_string(&self) -> (s: String)
        ensures
            s@ == ase_id_chars(self.0 as int),
    {
        let mut s = String::new();
        proof {
            reveal_strlit("AseId(");
            reveal_strlit(")");
        }
        s.append("AseId(");
        append_dec(&mut s, self.0);
        s.append(")");
        proof {
            assert(s@ =~= ase_id_chars(self.0 as int));
        }
        s
    }
}

/// Two identifiers are equal exactly when the values they wrap are equal.
pub proof fn lemma_ase_id_eq(a: u32, b: u32)
    ensures
        (AseId(a) == AseId(b)) <==> a == b,
{
}

/// A loaded Aseprite file together with the identifier assigned to it and the
/// path it was loaded from.
pub struct AsepriteFileWithId {
    pub id: AseId,
    pub path: PathBuf,
    pub file: asefile::AsepriteFile,
}

/// The identifier assigned to position `i` of the input: the index wrapped
/// into 32 bits.
pub open spec fn id_at(i: int) -> u32 {
    i as u32
}

/// The record built for position `i` of the input.
pub open spec fn record_at(input: Seq<(PathBuf, asefile::AsepriteFile)>, i: int) -> AsepriteFileWithId {
    AsepriteFileWithId { id: AseId(id_at(i)), path: input[i].0, file: input[i].1 }
}

/// The map built from the first `n` pairs of the input: one insertion per
/// position, keyed by the identifier assigned to that position.
pub open spec fn map_of(input: Seq<(PathBuf, asefile::AsepriteFile)>, n: int) -> Map<u32, AsepriteFileWithId>
    decreases n,
{
    if n <= 0 {
        Map::empty()
    } else {
        map_of(input, n - 1).insert(id_at(n - 1), record_at(input, n - 1))
    }
}

/// All loaded Aseprite files, keyed by their identifiers.
pub struct AsesById(HashMap<u32, AsepriteFileWithId>);

impl View for AsesById {
    type V = Map<u32, AsepriteFileWithId>;

    closed spec fn view(&self) -> Map<u32, AsepriteFileWithId> {
        self.0@
    }
}

impl AsesById {
    /// Every entry's key equals the identifier stored inside its record.
    pub open spec fn wf(&self) -> bool {
        forall|k: u32| self@.contains_key(k) ==> (#[trigger] self@[k]).id == AseId(k)
    }

    /// Builds the index from an ordered list of (path, parsed file) pairs:
    /// the pair at position `i` is stored under identifier `i` (the index
    /// wrapped into 32 bits).
    pub fn from(vec: Vec<(PathBuf, asefile::AsepriteFile)>) -> (result: Self)
        ensures
            result@ == map_of(vec@, vec@.len() as int),
            result.wf(),
    {
        let ghost input = vec@;
        let mut vec = vec;
        let n = vec.len();
        let mut map: HashMap<u32, AsepriteFileWithId> = HashMap::new();
        let mut idx: usize = 0;
        while vec.len() > 0
            invariant
                n == input.len(),
                idx + vec@.len() == input.len(),
                vec@ == input.subrange(idx as int, input.len() as int),
                map@ == map_of(input, idx as int),
            decreases vec@.len(),
        {
            let (path, file) = vec.remove(0);
            let id = AseId::new(#[verifier::truncate] (idx as u32));
            map.insert(id.0, AsepriteFileWithId { id, path, file });
            idx = idx + 1;
            proof {
                assert(vec@ =~= input.subrange(idx as int, input.len() as int));
            }
        }
        let result = AsesById(map);
        proof {
            lemma_map_of_key_matches_record_id(input, input.len() as int);
        }
        result
    }

    /// A fresh traversal over all (identifier value, record) entries, in no
    /// particular order: it visits every entry of the index exactly once.
    pub fn iter(&self) -> (it: std::collections::hash_map::Iter<'_, u32, AsepriteFileWithId>)
        ensures
            ({
                let entries = it.remaining();
                &&& entries.no_duplicates()
                &&& entries.len() == self@.dom().len()
                &&& forall|i: int|
                    #![trigger entries[i]]
                    0 <= i < entries.len() ==> self@.contains_key(*entries[i].0)
                        && self@[*entries[i].0] == *entries[i].1
                &&& forall|k: u32| #[trigger]
                    self@.contains_key(k) ==> entries.contains((&k, &self@[k]))
            }),
    {
        self.0.iter()
    }
}

/// For positions below the wrap-around bound, the map built from the first
/// `n` pairs holds exactly the entry (identifier `i`, record for `i`) for
/// each position `i < n`.
proof fn lemma_map_of_entry(input: Seq<(PathBuf, asefile::AsepriteFile)>, n: int, i: int)
    requires
        0 <= i < n <= u32::MAX + 1,
    ensures
        map_of(input, n).contains_pair(id_at(i), record_at(input, i)),
    decreases n,
{
    if i < n - 1 {
        lemma_map_of_entry(input, n - 1, i);
        assert(id_at(i) != id_at(n - 1));
    }
}

/// For `n` at most the wrap-around bound, the key set of the map built from
/// the first `n` pairs is exactly the identifiers below `n`, and it has
/// exactly `n` elements.
proof fn lemma_map_of_dom(input: Seq<(PathBuf, asefile::AsepriteFile)>, n: int)
    requires
        0 <= n <= u32::MAX + 1,
    ensures
        map_of(input, n).dom() =~= Set::new(|k: u32| (k as int) < n),
        map_of(input, n).dom().finite(),
        map_of(input, n).dom().len() == n,
    decreases n,
{
    if n == 0 {
        assert(Set::new(|k: u32| (k as int) < 0) =~= Set::<u32>::empty());
    } else {
        lemma_map_of_dom(input, n - 1);
        assert(map_of(input, n).dom() =~= map_of(input, n - 1).dom().insert(id_at(n - 1)));
        assert(!map_of(input, n - 1).dom().contains(id_at(n - 1)));
        assert(map_of(input, n).dom() =~= Set::new(|k: u32| (k as int) < n));
    }
}

/// Identifier assignment order: for an input of at most `u32::MAX + 1` pairs,
/// the built map's key set is exactly the input's positions, and the pair at
/// position `i` is stored under identifier `i` as the record for `i`.
pub proof fn lemma_build_assigns_ids_in_order(input: Seq<(PathBuf, asefile::AsepriteFile)>)
    requires
        input.len() <= u32::MAX + 1,
    ensures
        map_of(input, input.len() as int).dom() == Set::new(|k: u32| (k as int) < input.len()),
        forall|i: int|
            0 <= i < input.len() ==> map_of(input, input.len() as int).contains_pair(
                #[trigger] id_at(i),
                record_at(input, i),
            ),
{
    lemma_map_of_dom(input, input.len() as int);
    assert forall|i: int| 0 <= i < input.len() implies map_of(
        input,
        input.len() as int,
    ).contains_pair(#[trigger] id_at(i), record_at(input, i)) by {
        lemma_map_of_entry(input, input.len() as int, i);
    }
}

/// Cardinality preservation: building from `n` pairs yields a map with
/// exactly `n` entries, for any `n` up to `u32::MAX + 1` (including zero).
pub proof fn lemma_build_cardinality(input: Seq<(PathBuf, asefile::AsepriteFile)>)
    requires
        input.len() <= u32::MAX + 1,
    ensures
        map_of(input, input.len() as int).dom().finite(),
        map_of(input, input.len() as int).len() == input.len(),
{
    lemma_map_of_dom(input, input.len() as int);
}

/// Content fidelity: for an input of at most `u32::MAX + 1` pairs, the record
/// stored under identifier `i` carries identifier `i` and position `i`'s path
/// and parsed content unchanged.
pub proof fn lemma_build_content_fidelity(input: Seq<(PathBuf, asefile::AsepriteFile)>, i: int)
    requires
        input.len() <= u32::MAX + 1,
        0 <= i < input.len(),
    ensures
        map_of(input, input.len() as int)[id_at(i)].id == AseId(i as u32),
        map_of(input, input.len() as int)[id_at(i)].path == input[i].0,
        map_of(input, input.len() as int)[id_at(i)].file == input[i].1,
{
    lemma_map_of_entry(input, input.len() as int, i);
}

/// In every map the construction builds, each key equals the identifier
/// stored inside its record, whether or not the index wrapped.
pub proof fn lemma_map_of_key_matches_record_id(input: Seq<(PathBuf, asefile::AsepriteFile)>, n: int)
    ensures
        forall|k: u32| map_of(input, n).contains_key(k) ==> (#[trigger] map_of(input, n)[k]).id == AseId(k),
    decreases n,
{
    if n > 0 {
        lemma_map_of_key_matches_record_id(input, n - 1);
        assert forall|k: u32| map_of(input, n).contains_key(k) implies (#[trigger] map_of(
            input,
            n,
        )[k]).id == AseId(k) by {
            if k != id_at(n - 1) {
                assert(map_of(input, n - 1).contains_key(k));
                assert(map_of(input, n)[k] == map_of(input, n - 1)[k]);
            }
        }
    }
}

} // verus!
