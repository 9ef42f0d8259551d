//! The mathematical model of signature matching.
//!
//! A catalog of signatures is a map from byte sequences to labels. A buffer
//! matches a signature when the buffer starts with the signature's bytes; of
//! all the signatures that match, the longest one decides the label. A search
//! tries a list of offsets in order and stops at the first offset at which
//! anything matches.

use vstd::prelude::*;

verus! {

/// Signatures with their labels. The empty byte sequence is never a signature
/// that matches: a match always consumes at least one byte.
pub type Signatures = Map<Seq<u8>, Seq<char>>;

/// The signatures after `signature` has been stored under `label`. An earlier
/// label for the same bytes is replaced; an empty signature stores nothing.
pub open spec fn with_signature(sigs: Signatures, signature: Seq<u8>, label: Seq<char>) -> Signatures {
    if signature.len() == 0 {
        sigs
    } else {
        sigs.insert(signature, label)
    }
}

/// The label of the longest signature that is a prefix of `buf` and has at
/// most `n` bytes, if there is one.
pub open spec fn longest_match_within(sigs: Signatures, buf: Seq<u8>, n: nat) -> Option<Seq<char>>
    decreases n,
{
    if n == 0 {
        None
    } else if sigs.contains_key(buf.take(n as int)) {
        Some(sigs[buf.take(n as int)])
    } else {
        longest_match_within(sigs, buf, (n - 1) as nat)
    }
}

/// The label of the longest signature that `buf` starts with, if there is one.
pub open spec fn longest_match(sigs: Signatures, buf: Seq<u8>) -> Option<Seq<char>> {
    longest_match_within(sigs, buf, buf.len())
}

/// The match found when the signatures are laid over `buf` at `offset`. A
/// buffer shorter than the offset matches nothing there.
pub open spec fn match_at(sigs: Signatures, buf: Seq<u8>, offset: int) -> Option<Seq<char>> {
    if 0 <= offset <= buf.len() {
        longest_match(sigs, buf.skip(offset))
    } else {
        None
    }
}

/// The result of trying the offsets `offsets[k..]` in order: the match at the
/// first of them at which anything matches.
pub open spec fn search_from(sigs: Signatures, offsets: Seq<u32>, buf: Seq<u8>, k: int) -> Option<Seq<char>>
    decreases offsets.len() - k,
{
    if k < 0 || k >= offsets.len() {
        None
    } else if match_at(sigs, buf, offsets[k] as int) is Some {
        match_at(sigs, buf, offsets[k] as int)
    } else {
        search_from(sigs, offsets, buf, k + 1)
    }
}

/// The result of a search over all the offsets, in the order given.
pub open spec fn search_result(sigs: Signatures, offsets: Seq<u32>, buf: Seq<u8>) -> Option<Seq<char>> {
    search_from(sigs, offsets, buf, 0)
}

/// Each offset is smaller than the one after it.
pub open spec fn strictly_ascending(offsets: Seq<u32>) -> bool {
    forall|i: int, j: int| 0 <= i < j < offsets.len() ==> offsets[i] < offsets[j]
}

/// `n` is the length of the longest signature that `buf` starts with.
pub open spec fn is_longest_match_len(sigs: Signatures, buf: Seq<u8>, n: int) -> bool {
    &&& 1 <= n <= buf.len()
    &&& sigs.contains_key(buf.take(n))
    &&& forall|j: int| n < j <= buf.len() ==> !sigs.contains_key(#[trigger] buf.take(j))
}

/// A signature of `n` bytes lies in `buf` at `offset`.
pub open spec fn lies_at(sigs: Signatures, buf: Seq<u8>, offset: int, n: int) -> bool {
    &&& 0 <= offset
    &&& 1 <= n
    &&& offset + n <= buf.len()
    &&& sigs.contains_key(buf.subrange(offset, offset + n))
}

/// Prefixes longer than `n` that hold no signature do not change the match.
pub proof fn lemma_longest_match_skips_misses(sigs: Signatures, buf: Seq<u8>, n: nat, m: nat)
    requires
        n <= m <= buf.len(),
        forall|j: int| n < j <= m ==> !sigs.contains_key(#[trigger] buf.take(j)),
    ensures
        longest_match_within(sigs, buf, m) == longest_match_within(sigs, buf, n),
    decreases m,
{
    if m > n {
        assert(!sigs.contains_key(buf.take(m as int)));
        lemma_longest_match_skips_misses(sigs, buf, n, (m - 1) as nat);
    }
}

/// A match is always the label of the longest matching signature, and there is
/// no match exactly when no prefix of the buffer is a signature.
pub proof fn lemma_longest_match_characterization(sigs: Signatures, buf: Seq<u8>)
    ensures
        match longest_match(sigs, buf) {
            Some(label) => exists|n: int| #[trigger]
                is_longest_match_len(sigs, buf, n) && label == sigs[buf.take(n)],
            None => forall|j: int| 1 <= j <= buf.len() ==> !sigs.contains_key(#[trigger] buf.take(j)),
        },
{
    lemma_longest_match_within_characterization(sigs, buf, buf.len());
    if let Some(label) = longest_match(sigs, buf) {
        let n = choose|n: int|
            1 <= n <= buf.len() && sigs.contains_key(buf.take(n)) && label == sigs[buf.take(n)] && (
            forall|j: int| n < j <= buf.len() ==> !sigs.contains_key(#[trigger] buf.take(j)));
        assert(is_longest_match_len(sigs, buf, n));
    }
}

proof fn lemma_longest_match_within_characterization(sigs: Signatures, buf: Seq<u8>, m: nat)
    requires
        m <= buf.len(),
    ensures
        match longest_match_within(sigs, buf, m) {
            Some(label) => exists|n: int|
                1 <= n <= m && sigs.contains_key(buf.take(n)) && label == sigs[buf.take(n)] && (
                forall|j: int| n < j <= m ==> !sigs.contains_key(#[trigger] buf.take(j))),
            None => forall|j: int| 1 <= j <= m ==> !sigs.contains_key(#[trigger] buf.take(j)),
        },
    decreases m,
{
    if m == 0 {
    } else if sigs.contains_key(buf.take(m as int)) {
        let n = m as int;
        assert(1 <= n <= m && sigs.contains_key(buf.take(n)) && sigs[buf.take(m as int)] == sigs[buf.take(n)]
            && (forall|j: int| n < j <= m ==> !sigs.contains_key(#[trigger] buf.take(j))));
    } else {
        lemma_longest_match_within_characterization(sigs, buf, (m - 1) as nat);
        if let Some(label) = longest_match_within(sigs, buf, (m - 1) as nat) {
            let n = choose|n: int|
                1 <= n <= m - 1 && sigs.contains_key(buf.take(n)) && label == sigs[buf.take(n)] && (
                forall|j: int| n < j <= m - 1 ==> !sigs.contains_key(#[trigger] buf.take(j)));
            assert(1 <= n <= m && sigs.contains_key(buf.take(n)) && label == sigs[buf.take(n)] && (
            forall|j: int| n < j <= m ==> !sigs.contains_key(#[trigger] buf.take(j))));
        }
    }
}

/// The longest matching signature decides the label.
pub proof fn lemma_longest_match_is(sigs: Signatures, buf: Seq<u8>, n: int)
    requires
        is_longest_match_len(sigs, buf, n),
    ensures
        longest_match(sigs, buf) == Some(sigs[buf.take(n)]),
{
    lemma_longest_match_skips_misses(sigs, buf, n as nat, buf.len());
}

/// Of the signatures that lie at one place in a buffer, the longest decides.
/// Let the signature `b` lie in `buf` at `offset`, and let no longer signature
/// lie there. Then the match at that offset is the label of `b`, although a
/// shorter signature, the prefix `a` of `b`, lies there too.
pub proof fn lemma_longest_prefix_wins(sigs: Signatures, a: Seq<u8>, b: Seq<u8>, buf: Seq<u8>, offset: int)
    requires
        sigs.contains_key(a),
        sigs.contains_key(b),
        0 < a.len() < b.len(),
        b.take(a.len() as int) == a,
        0 <= offset,
        offset + b.len() <= buf.len(),
        buf.subrange(offset, offset + b.len()) == b,
        forall|n: int|
            b.len() < n <= buf.len() - offset ==> !sigs.contains_key(#[trigger] buf.subrange(offset, offset + n)),
    ensures
        match_at(sigs, buf, offset) == Some(sigs[b]),
{
    let rest = buf.skip(offset);
    assert(rest.take(b.len() as int) =~= b);
    assert forall|n: int| b.len() < n <= rest.len() implies !sigs.contains_key(#[trigger] rest.take(n)) by {
        assert(rest.take(n) =~= buf.subrange(offset, offset + n));
    }
    lemma_longest_match_is(sigs, rest, b.len() as int);
}

/// A signature never decides the match where a longer signature lies at the
/// same place: if `a` is a strict prefix of `b` and `b` lies in `buf` at
/// `offset`, the match there comes from a signature longer than `a`.
pub proof fn lemma_shorter_prefix_never_decides(
    sigs: Signatures,
    a: Seq<u8>,
    b: Seq<u8>,
    buf: Seq<u8>,
    offset: int,
)
    requires
        sigs.contains_key(b),
        a.len() < b.len(),
        b.take(a.len() as int) == a,
        0 <= offset,
        offset + b.len() <= buf.len(),
        buf.subrange(offset, offset + b.len()) == b,
    ensures
        match_at(sigs, buf, offset) is Some,
        !is_longest_match_len(sigs, buf.skip(offset), a.len() as int),
        exists|n: int| #[trigger]
            is_longest_match_len(sigs, buf.skip(offset), n) && b.len() <= n && match_at(sigs, buf, offset)
                == Some(sigs[buf.skip(offset).take(n)]),
{
    let rest = buf.skip(offset);
    assert(rest.take(b.len() as int) =~= b);
    lemma_longest_match_characterization(sigs, rest);
    match longest_match(sigs, rest) {
        Some(label) => {
            let n = choose|n: int| #[trigger] is_longest_match_len(sigs, rest, n) && label == sigs[rest.take(n)];
            assert(b.len() <= n);
        },
        None => {
            assert(!sigs.contains_key(rest.take(b.len() as int)));
        },
    }
}

/// There is a match at an offset exactly when some signature lies in the
/// buffer there, and the match is the label of a signature that lies there.
pub proof fn lemma_match_at_characterization(sigs: Signatures, buf: Seq<u8>, offset: int)
    ensures
        match match_at(sigs, buf, offset) {
            Some(label) => exists|n: int| #[trigger]
                lies_at(sigs, buf, offset, n) && label == sigs[buf.subrange(offset, offset + n)],
            None => forall|n: int| !#[trigger] lies_at(sigs, buf, offset, n),
        },
{
    if 0 <= offset <= buf.len() {
        let rest = buf.skip(offset);
        lemma_longest_match_characterization(sigs, rest);
        match longest_match(sigs, rest) {
            Some(label) => {
                let n = choose|n: int| #[trigger] is_longest_match_len(sigs, rest, n) && label == sigs[rest.take(n)];
                assert(rest.take(n) =~= buf.subrange(offset, offset + n));
                assert(lies_at(sigs, buf, offset, n));
            },
            None => {
                assert forall|n: int| !#[trigger] lies_at(sigs, buf, offset, n) by {
                    if 1 <= n && offset + n <= buf.len() {
                        assert(rest.take(n) =~= buf.subrange(offset, offset + n));
                    }
                }
            },
        }
    }
}

/// Offsets at which nothing matches do not change the result of a search.
pub proof fn lemma_search_skips_misses(sigs: Signatures, offsets: Seq<u32>, buf: Seq<u8>, k: int, m: int)
    requires
        0 <= k <= m <= offsets.len(),
        forall|j: int| k <= j < m ==> match_at(sigs, buf, #[trigger] offsets[j] as int) is None,
    ensures
        search_from(sigs, offsets, buf, k) == search_from(sigs, offsets, buf, m),
    decreases m - k,
{
    if k < m {
        assert(match_at(sigs, buf, offsets[k] as int) is None);
        lemma_search_skips_misses(sigs, offsets, buf, k + 1, m);
    }
}

/// The first offset at which anything matches decides the search, whatever
/// matches at the offsets after it.
pub proof fn lemma_first_matching_offset_wins(sigs: Signatures, offsets: Seq<u32>, buf: Seq<u8>, k: int)
    requires
        0 <= k < offsets.len(),
        match_at(sigs, buf, offsets[k] as int) is Some,
        forall|j: int| 0 <= j < k ==> match_at(sigs, buf, #[trigger] offsets[j] as int) is None,
    ensures
        search_result(sigs, offsets, buf) == match_at(sigs, buf, offsets[k] as int),
{
    lemma_search_skips_misses(sigs, offsets, buf, 0, k);
}

/// When a buffer matches at two of the offsets, the search returns the match
/// at the lower one, provided that nothing matches at an offset lower still.
/// There is no search for a best match across offsets.
pub proof fn lemma_offset_precedence(sigs: Signatures, offsets: Seq<u32>, buf: Seq<u8>, low: u32, high: u32)
    requires
        strictly_ascending(offsets),
        offsets.contains(low),
        offsets.contains(high),
        low < high,
        match_at(sigs, buf, low as int) is Some,
        match_at(sigs, buf, high as int) is Some,
        forall|offset: u32| offsets.contains(offset) && offset < low ==> match_at(sigs, buf, offset as int) is None,
    ensures
        search_result(sigs, offsets, buf) == match_at(sigs, buf, low as int),
{
    let k = choose|k: int| 0 <= k < offsets.len() && offsets[k] == low;
    assert forall|j: int| 0 <= j < k implies match_at(sigs, buf, #[trigger] offsets[j] as int) is None by {
        assert(offsets.contains(offsets[j]));
    }
    lemma_first_matching_offset_wins(sigs, offsets, buf, k);
}

/// A match at offset 0 beats a match at any other offset.
pub proof fn lemma_offset_zero_wins(sigs: Signatures, offsets: Seq<u32>, buf: Seq<u8>)
    requires
        strictly_ascending(offsets),
        offsets.contains(0),
        longest_match(sigs, buf) is Some,
    ensures
        search_result(sigs, offsets, buf) == longest_match(sigs, buf),
{
    let k = choose|k: int| 0 <= k < offsets.len() && offsets[k] == 0;
    assert(k == 0) by {
        if k > 0 {
            assert(offsets[0] < offsets[k]);
        }
    }
    assert(buf.skip(0) =~= buf);
    lemma_first_matching_offset_wins(sigs, offsets, buf, 0);
}

/// A buffer that ends before every offset is recognized as nothing, whatever
/// the signatures are.
pub proof fn lemma_short_buffer_matches_nothing(sigs: Signatures, offsets: Seq<u32>, buf: Seq<u8>)
    requires
        forall|i: int| 0 <= i < offsets.len() ==> buf.len() < #[trigger] offsets[i],
    ensures
        search_result(sigs, offsets, buf) is None,
{
    lemma_search_skips_misses(sigs, offsets, buf, 0, offsets.len() as int);
}

/// Storing the same signature under the same label twice leaves the same
/// signatures as storing it once, so every search gives the same result.
pub proof fn lemma_insert_twice_is_insert_once(sigs: Signatures, signature: Seq<u8>, label: Seq<char>)
    ensures
        with_signature(with_signature(sigs, signature, label), signature, label) == with_signature(
            sigs,
            signature,
            label,
        ),
        forall|offsets: Seq<u32>, buf: Seq<u8>| #[trigger]
            search_result(with_signature(with_signature(sigs, signature, label), signature, label), offsets, buf)
                == search_result(with_signature(sigs, signature, label), offsets, buf),
{
    assert(with_signature(with_signature(sigs, signature, label), signature, label) =~= with_signature(
        sigs,
        signature,
        label,
    ));
}

/// The offsets of a catalog are determined by the set of them: two ascending
/// sequences with the same members are the same sequence.
pub proof fn lemma_ascending_offsets_unique(a: Seq<u32>, b: Seq<u32>)
    requires
        strictly_ascending(a),
        strictly_ascending(b),
        a.to_set() == b.to_set(),
    ensures
        a == b,
    decreases a.len(),
{
    if a.len() == 0 {
        if b.len() > 0 {
            assert(b.contains(b[0]));
            assert(a.to_set().contains(b[0]));
        }
        assert(a =~= b);
    } else {
        assert(a.contains(a.last()));
        assert(b.to_set().contains(a.last()));
        let at = choose|i: int| 0 <= i < b.len() && b[i] == a.last();
        assert(b.contains(b.last()));
        assert(a.to_set().contains(b.last()));
        let back = choose|i: int| 0 <= i < a.len() && a[i] == b.last();
        assert(a.last() == b.last()) by {
            if at < b.len() - 1 {
                assert(b[at] < b[b.len() - 1]);
            }
            if back < a.len() - 1 {
                assert(a[back] < a[a.len() - 1]);
            }
        }
        let shorter_a = a.drop_last();
        let shorter_b = b.drop_last();
        assert forall|x: u32| shorter_a.contains(x) <==> shorter_b.contains(x) by {
            if shorter_a.contains(x) {
                let i = choose|i: int| 0 <= i < shorter_a.len() && shorter_a[i] == x;
                assert(a[i] < a[a.len() - 1]);
                assert(a.contains(a[i]));
                assert(b.to_set().contains(x));
                let j = choose|j: int| 0 <= j < b.len() && b[j] == x;
                assert(shorter_b[j] == x);
            }
            if shorter_b.contains(x) {
                let i = choose|i: int| 0 <= i < shorter_b.len() && shorter_b[i] == x;
                assert(b[i] < b[b.len() - 1]);
                assert(b.contains(b[i]));
                assert(a.to_set().contains(x));
                let j = choose|j: int| 0 <= j < a.len() && a[j] == x;
                assert(shorter_a[j] == x);
            }
        }
        assert(shorter_a.to_set() =~= shorter_b.to_set());
        lemma_ascending_offsets_unique(shorter_a, shorter_b);
        assert(a =~= shorter_a.push(a.last()));
        assert(b =~= shorter_b.push(b.last()));
    }
}

/// A search recognizes a buffer exactly when some signature lies in it at one
/// of the offsets, and the label it returns is that of a signature that lies
/// in the buffer at one of the offsets.
pub proof fn lemma_search_characterization(sigs: Signatures, offsets: Seq<u32>, buf: Seq<u8>)
    ensures
        match search_result(sigs, offsets, buf) {
            Some(label) => exists|k: int, n: int|
                0 <= k < offsets.len() && #[trigger] lies_at(sigs, buf, offsets[k] as int, n) && label
                    == sigs[buf.subrange(offsets[k] as int, offsets[k] + n)],
            None => forall|k: int, n: int|
                0 <= k < offsets.len() ==> !#[trigger] lies_at(sigs, buf, offsets[k] as int, n),
        },
{
    lemma_search_from_characterization(sigs, offsets, buf, 0);
}

proof fn lemma_search_from_characterization(sigs: Signatures, offsets: Seq<u32>, buf: Seq<u8>, from: int)
    requires
        0 <= from <= offsets.len(),
    ensures
        match search_from(sigs, offsets, buf, from) {
            Some(label) => exists|k: int, n: int|
                from <= k < offsets.len() && #[trigger] lies_at(sigs, buf, offsets[k] as int, n) && label
                    == sigs[buf.subrange(offsets[k] as int, offsets[k] + n)],
            None => forall|k: int, n: int|
                from <= k < offsets.len() ==> !#[trigger] lies_at(sigs, buf, offsets[k] as int, n),
        },
    decreases offsets.len() - from,
{
    if from < offsets.len() {
        lemma_match_at_characterization(sigs, buf, offsets[from] as int);
        match match_at(sigs, buf, offsets[from] as int) {
            Some(label) => {
                let n = choose|n: int| #[trigger]
                    lies_at(sigs, buf, offsets[from] as int, n) && label == sigs[buf.subrange(
                        offsets[from] as int,
                        offsets[from] + n,
                    )];
                assert(lies_at(sigs, buf, offsets[from] as int, n));
            },
            None => {
                lemma_search_from_characterization(sigs, offsets, buf, from + 1);
                match search_from(sigs, offsets, buf, from + 1) {
                    Some(label) => {
                        let (k, n) = choose|k: int, n: int|
                            from + 1 <= k < offsets.len() && #[trigger] lies_at(sigs, buf, offsets[k] as int, n)
                                && label == sigs[buf.subrange(offsets[k] as int, offsets[k] + n)];
                        assert(lies_at(sigs, buf, offsets[k] as int, n));
                    },
                    None => {},
                }
            },
        }
    }
}

} // verus!
