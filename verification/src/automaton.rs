//! The dictionary automaton: an `fst::raw::Fst` over a byte vector, reached
//! through a handful of trusted calls whose results are named here.

use vstd::bytes::{spec_u32_from_le_bytes, spec_u64_from_le_bytes, u64_from_le_bytes};
use vstd::prelude::*;
use vstd::slice::slice_subrange;

verus! {

/// `fst::raw::Fst`: an automaton over its serialized bytes. Nothing is known
/// of what a value holds but through the calls below.
#[verifier::external_type_specification]
#[verifier::external_body]
#[verifier::reject_recursive_types(D)]
pub struct ExFst<D>(fst::raw::Fst<D>);

/// `fst::Error`: why a call of the automaton library failed. `classify` reads
/// it.
#[verifier::external_type_specification]
#[verifier::external_body]
pub struct ExFstError(fst::Error);

/// Why a byte string could not be loaded as a dictionary.
#[derive(Debug, PartialEq, Eq)]
#[allow(inconsistent_fields)]
pub enum DictionaryError {
    /// The bytes were written for another version of the automaton format.
    Version { expected: u64, got: u64 },
    /// The bytes are not a serialized automaton.
    Format { size: usize },
    /// The stored checksum differs from the one computed over the bytes.
    ChecksumMismatch { expected: u32, got: u32 },
    /// The bytes carry no checksum.
    ChecksumMissing,
    /// Any other failure of the automaton library.
    Other,
}

/// The serialized bytes of an automaton.
pub uninterp spec fn fst_bytes(f: fst::raw::Fst<Vec<u8>>) -> Seq<u8>;

/// The serialized bytes of the automaton that `Fst::from_iter_set` builds from
/// `keys`.
pub uninterp spec fn built_bytes(keys: Seq<Seq<u8>>) -> Seq<u8>;

/// The address of the root node of the automaton serialized as `bytes`.
pub uninterp spec fn root_of(bytes: Seq<u8>) -> usize;

/// The index of the transition that the node at `addr` has for `input`, if any.
pub uninterp spec fn input_index(bytes: Seq<u8>, addr: usize, input: u8) -> Option<usize>;

/// The address that transition number `index` of the node at `addr` leads to.
pub uninterp spec fn target_addr(bytes: Seq<u8>, addr: usize, index: usize) -> usize;

/// Whether the node at `addr` ends a key.
pub uninterp spec fn final_at(bytes: Seq<u8>, addr: usize) -> bool;

/// What an outside error value says, as a value of this library.
pub uninterp spec fn error_kind(e: fst::Error) -> DictionaryError;

/// The masked CRC32C checksum that `Fst::verify` computes over `data`.
pub uninterp spec fn masked_checksum(data: Seq<u8>) -> u32;

/// The number that the eight bytes from `at` on hold, the low byte first.
pub open spec fn field(bytes: Seq<u8>, at: int) -> u64 {
    spec_u64_from_le_bytes(bytes.subrange(at, at + 8))
}

/// Where the numbers at the end of a serialized automaton end: at the end of
/// the bytes, or before the checksum that the format has from its third
/// version on.
pub open spec fn footer_end(bytes: Seq<u8>) -> int {
    if field(bytes, 0) <= 2 {
        bytes.len() as int
    } else {
        bytes.len() - 4
    }
}

/// Whether the two numbers at the end of a serialized automaton, the number of
/// keys and the address of the root, are numbers that a `usize` holds.
pub open spec fn footer_fits(bytes: Seq<u8>) -> bool {
    bytes.len() >= 36 && 1 <= field(bytes, 0) <= 3 ==> field(bytes, footer_end(bytes) - 8)
        <= usize::MAX && field(bytes, footer_end(bytes) - 16) <= usize::MAX
}

/// The error with which `Fst::new` refuses `bytes`, if it does: they are too
/// short, or of a version it does not read, or the address of the root is 0
/// where the automaton is not the empty one.
pub open spec fn parse_failure(bytes: Seq<u8>) -> Option<DictionaryError> {
    let version = field(bytes, 0);
    let root = field(bytes, footer_end(bytes) - 8);
    let empty_total: int = if version <= 2 {
        32
    } else {
        36
    };
    let addr_offset: int = if version <= 2 {
        17
    } else {
        21
    };
    if bytes.len() < 36 {
        Some(DictionaryError::Format { size: bytes.len() as usize })
    } else if version == 0 || version > 3 {
        Some(DictionaryError::Version { expected: 3, got: version })
    } else if (root == 0 && bytes.len() != empty_total) && root + addr_offset != bytes.len() {
        Some(DictionaryError::Format { size: bytes.len() as usize })
    } else {
        None
    }
}

/// The error with which loading refuses `bytes`, if it does: that of
/// `Fst::new`, and a format error where the numbers at the end are too large
/// for this machine.
pub open spec fn load_failure(bytes: Seq<u8>) -> Option<DictionaryError> {
    if !footer_fits(bytes) {
        Some(DictionaryError::Format { size: bytes.len() as usize })
    } else {
        parse_failure(bytes)
    }
}

/// The checksum of a serialized automaton: that of all its bytes but the last
/// four, which hold the checksum.
pub open spec fn checksum_of(bytes: Seq<u8>) -> u32 {
    masked_checksum(bytes.subrange(0, bytes.len() - 4))
}

/// The error with which `Fst::verify` refuses a loaded automaton, if it does,
/// where `computed` is the checksum of its bytes: the format had no checksum
/// before its third version, and from then on the last four bytes hold it.
pub open spec fn checksum_failure(bytes: Seq<u8>, computed: u32) -> Option<DictionaryError> {
    let stored = spec_u32_from_le_bytes(bytes.subrange(bytes.len() - 4, bytes.len() as int));
    if field(bytes, 0) <= 2 {
        Some(DictionaryError::ChecksumMissing)
    } else if stored == computed {
        None
    } else {
        Some(DictionaryError::ChecksumMismatch { expected: stored, got: computed })
    }
}

/// Lexicographic order on byte strings: `a <= b`.
pub open spec fn bytes_le(a: Seq<u8>, b: Seq<u8>) -> bool
    decreases a.len(),
{
    if a.len() == 0 {
        true
    } else if b.len() == 0 {
        false
    } else if a[0] != b[0] {
        a[0] < b[0]
    } else {
        bytes_le(a.drop_first(), b.drop_first())
    }
}

/// Whether key `i` is at most the key after it.
pub open spec fn in_order(keys: Seq<Seq<u8>>, i: int) -> bool {
    bytes_le(keys[i], keys[i + 1])
}

/// Each key is at most the one after it.
pub open spec fn keys_sorted(keys: Seq<Seq<u8>>) -> bool {
    forall|i: int| 0 <= i && i + 1 < keys.len() ==> #[trigger] in_order(keys, i)
}

/// The views of a vector of keys.
pub open spec fn key_views(keys: Seq<Vec<u8>>) -> Seq<Seq<u8>> {
    keys.map_values(|k: Vec<u8>| k@)
}

/// One transition: from the node at `addr` on `input`.
pub open spec fn step(bytes: Seq<u8>, addr: usize, input: u8) -> Option<usize> {
    match input_index(bytes, addr, input) {
        Some(i) => Some(target_addr(bytes, addr, i)),
        None => None,
    }
}

/// The node reached from the root after reading `word`, if every byte has a
/// transition.
pub open spec fn walk(bytes: Seq<u8>, word: Seq<u8>) -> Option<usize>
    decreases word.len(),
{
    if word.len() == 0 {
        Some(root_of(bytes))
    } else {
        match walk(bytes, word.drop_last()) {
            Some(a) => step(bytes, a, word.last()),
            None => None,
        }
    }
}

/// Whether the automaton holds `word` as a key.
pub open spec fn accepts(bytes: Seq<u8>, word: Seq<u8>) -> bool {
    match walk(bytes, word) {
        Some(a) => final_at(bytes, a),
        None => false,
    }
}

/// Whether some word leads from the root to the node at `addr`.
pub open spec fn reachable(bytes: Seq<u8>, addr: usize) -> bool {
    exists|word: Seq<u8>| walk(bytes, word) == Some(addr)
}

/// Whether `bytes` is what the builder writes for some sorted list of keys,
/// on a machine whose `usize` holds the numbers at their end.
pub open spec fn is_built(bytes: Seq<u8>) -> bool {
    &&& footer_fits(bytes)
    &&& exists|keys: Seq<Seq<u8>>| keys_sorted(keys) && bytes == #[trigger] built_bytes(keys)
}

/// `Fst::from_iter_set`: builds the automaton of `keys`. It fails exactly when
/// some key is smaller than the one before it. The automaton it returns holds
/// the given keys and no others, and the numbers at the end of its bytes are
/// numbers of this machine.
#[verifier::external_body]
pub(crate) fn build(keys: &Vec<Vec<u8>>) -> (r: Result<fst::raw::Fst<Vec<u8>>, fst::Error>)
    ensures
        r is Ok <==> keys_sorted(key_views(keys@)),
        r matches Ok(f) ==> fst_bytes(f) == built_bytes(key_views(keys@)),
        r matches Ok(f) ==> footer_fits(fst_bytes(f)),
        r matches Ok(f) ==> forall|w: Seq<u8>|
            accepts(fst_bytes(f), w) <==> key_views(keys@).contains(w),
{
    fst::raw::Fst::from_iter_set(keys.iter())
}

/// `Fst::new`: reads an automaton from its serialized bytes, which it keeps
/// unchanged. Bytes that the builder wrote are always accepted.
#[verifier::external_body]
pub(crate) fn load(bytes: Vec<u8>) -> (r: Result<fst::raw::Fst<Vec<u8>>, fst::Error>)
    requires
        footer_fits(bytes@),
    ensures
        r is Ok <==> parse_failure(bytes@) is None,
        r matches Ok(f) ==> fst_bytes(f) == bytes@,
        r matches Err(e) ==> parse_failure(bytes@) == Some(error_kind(e)),
        is_built(bytes@) ==> r is Ok,
{
    fst::raw::Fst::new(bytes)
}

/// `Fst::verify`: compares the checksum that the bytes hold with the one
/// computed over them. Bytes that the builder wrote always pass.
#[verifier::external_body]
pub(crate) fn verify(f: &fst::raw::Fst<Vec<u8>>) -> (r: Result<(), fst::Error>)
    requires
        parse_failure(fst_bytes(*f)) is None,
    ensures
        r is Ok <==> checksum_failure(
            fst_bytes(*f),
            masked_checksum(fst_bytes(*f).subrange(0, fst_bytes(*f).len() - 4)),
        ) is None,
        r matches Err(e) ==> checksum_failure(
            fst_bytes(*f),
            masked_checksum(fst_bytes(*f).subrange(0, fst_bytes(*f).len() - 4)),
        ) == Some(error_kind(e)),
        is_built(fst_bytes(*f)) ==> r is Ok,
{
    f.verify()
}

/// Whether the two numbers at the end of `bytes` are numbers that a `usize`
/// holds.
pub fn check_footer(bytes: &Vec<u8>) -> (r: bool)
    ensures
        r == footer_fits(bytes@),
{
    let length: usize = bytes.len();
    if length < 36 {
        return true;
    }
    let all: &[u8] = bytes.as_slice();
    let version: u64 = u64_from_le_bytes(slice_subrange(all, 0, 8));
    if version == 0 || version > 3 {
        return true;
    }
    let end: usize = if version <= 2 {
        length
    } else {
        length - 4
    };
    let root: u64 = u64_from_le_bytes(slice_subrange(all, end - 8, end));
    let keys: u64 = u64_from_le_bytes(slice_subrange(all, end - 16, end - 8));
    root <= usize::MAX as u64 && keys <= usize::MAX as u64
}

/// `Clone::clone` of an automaton: one with the same bytes.
#[verifier::external_body]
pub(crate) fn duplicate(f: &fst::raw::Fst<Vec<u8>>) -> (r: fst::raw::Fst<Vec<u8>>)
    ensures
        fst_bytes(r) == fst_bytes(*f),
{
    f.clone()
}

/// `Fst::as_bytes`: the serialized bytes.
#[verifier::external_body]
pub(crate) fn serialized(f: &fst::raw::Fst<Vec<u8>>) -> (r: &[u8])
    ensures
        r@ == fst_bytes(*f),
{
    f.as_bytes()
}

/// Reads an outside error value into one of this library.
#[verifier::external_body]
pub(crate) fn classify(e: fst::Error) -> (r: DictionaryError)
    ensures
        r == error_kind(e),
{
    match e {
        fst::Error::Fst(fst::raw::Error::Version { expected, got }) => DictionaryError::Version { expected, got },
        fst::Error::Fst(fst::raw::Error::Format { size }) => DictionaryError::Format { size },
        fst::Error::Fst(fst::raw::Error::ChecksumMismatch { expected, got }) => DictionaryError::ChecksumMismatch { expected, got },
        fst::Error::Fst(fst::raw::Error::ChecksumMissing) => DictionaryError::ChecksumMissing,
        _ => DictionaryError::Other,
    }
}

/// `Fst::root`: the address of the root node.
#[verifier::external_body]
pub(crate) fn root(f: &fst::raw::Fst<Vec<u8>>) -> (r: usize)
    requires
        is_built(fst_bytes(*f)),
    ensures
        r == root_of(fst_bytes(*f)),
{
    f.root().addr()
}

/// `Node::find_input`: the index of the transition for `input` at a node.
#[verifier::external_body]
pub(crate) fn find_input(f: &fst::raw::Fst<Vec<u8>>, addr: usize, input: u8) -> (r: Option<usize>)
    requires
        is_built(fst_bytes(*f)),
        reachable(fst_bytes(*f), addr),
    ensures
        r == input_index(fst_bytes(*f), addr, input),
{
    f.node(addr).find_input(input)
}

/// `Node::transition_addr`: where a transition of a node leads.
#[verifier::external_body]
pub(crate) fn transition_addr(f: &fst::raw::Fst<Vec<u8>>, addr: usize, index: usize) -> (r: usize)
    requires
        is_built(fst_bytes(*f)),
        reachable(fst_bytes(*f), addr),
        exists|input: u8| input_index(fst_bytes(*f), addr, input) == Some(index),
    ensures
        r == target_addr(fst_bytes(*f), addr, index),
{
    f.node(addr).transition_addr(index)
}

/// `Node::is_final`: whether a node ends a key.
#[verifier::external_body]
pub(crate) fn is_final(f: &fst::raw::Fst<Vec<u8>>, addr: usize) -> (r: bool)
    requires
        is_built(fst_bytes(*f)),
        reachable(fst_bytes(*f), addr),
    ensures
        r == final_at(fst_bytes(*f), addr),
{
    f.node(addr).is_final()
}

/// Once a word has left the automaton, no longer word comes back into it.
pub proof fn lemma_walk_dead(bytes: Seq<u8>, word: Seq<u8>, n: int)
    requires
        0 <= n <= word.len(),
        walk(bytes, word.take(n)) is None,
    ensures
        walk(bytes, word) is None,
    decreases word.len() - n,
{
    if n < word.len() {
        assert(word.take(n + 1).drop_last() =~= word.take(n));
        lemma_walk_dead(bytes, word, n + 1);
    } else {
        assert(word.take(n) =~= word);
    }
}

/// Walks the automaton over the bytes of `text` from `position` up to `end`,
/// from the node that the bytes from `origin` up to `position` have led to.
/// There is no node where a byte has no transition, and then none for any
/// longer stretch.
pub(crate) fn walk_bytes(
    dictionary: &fst::raw::Fst<Vec<u8>>,
    text: &[u8],
    Ghost(origin): Ghost<int>,
    cursor: usize,
    position: usize,
    end: usize,
) -> (r: Option<usize>)
    requires
        is_built(fst_bytes(*dictionary)),
        0 <= origin <= position <= end <= text@.len(),
        walk(fst_bytes(*dictionary), text@.subrange(origin, position as int)) == Some(cursor),
    ensures
        r == walk(fst_bytes(*dictionary), text@.subrange(origin, end as int)),
        r is None ==> forall|e: int|
            end <= e <= text@.len() ==> walk(
                fst_bytes(*dictionary),
                #[trigger] text@.subrange(origin, e),
            ) is None,
{
    let ghost dict = fst_bytes(*dictionary);
    let mut cursor: usize = cursor;
    let mut position: usize = position;
    while position < end
        invariant
            is_built(dict),
            dict == fst_bytes(*dictionary),
            0 <= origin <= position <= end <= text@.len(),
            walk(dict, text@.subrange(origin, position as int)) == Some(cursor),
        decreases end - position,
    {
        proof {
            let word = text@.subrange(origin, position + 1);
            assert(word.drop_last() =~= text@.subrange(origin, position as int));
            assert(word.last() == text@[position as int]);
            assert(walk(dict, word) == step(dict, cursor, text@[position as int]));
            assert(reachable(dict, cursor));
        }
        match find_input(dictionary, cursor, text[position]) {
            Some(index) => {
                cursor = transition_addr(dictionary, cursor, index);
                position = position + 1;
            },
            None => {
                proof {
                    assert forall|e: int| end <= e <= text@.len() implies walk(
                        dict,
                        #[trigger] text@.subrange(origin, e),
                    ) is None by {
                        let word = text@.subrange(origin, e);
                        assert(word.take(position + 1 - origin) =~= text@.subrange(
                            origin,
                            position + 1,
                        ));
                        lemma_walk_dead(dict, word, position + 1 - origin);
                    }
                }
                return None;
            },
        }
    }
    Some(cursor)
}

} // verus!
