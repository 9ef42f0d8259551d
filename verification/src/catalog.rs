//! The entries of a signature catalog and what a catalog as a whole amounts to:
//! its signatures, the offsets it uses, and the sizes that bound a read.

use crate::matching::{with_signature, Signatures};
use vstd::prelude::*;

verus! {

/// One catalog entry: a signature, the offset from the start of a file at
/// which it is expected, and the label of the file type it identifies.
#[derive(Debug)]
pub struct SignatureEntry {
    pub file_type: String,
    pub offset: u32,
    pub signature: Vec<u8>,
}

/// What the error says when a catalog needs a larger buffer than a 32-bit
/// size can express.
pub const OVERSIZED: &'static str = "the largest offset plus the longest signature exceeds the 32-bit buffer size";

/// Why a catalog could not be turned into a trie. Either ends the run: without
/// a catalog there is nothing to match against.
#[derive(Debug)]
pub enum CatalogError {
    /// The catalog could not be read at all.
    Unreadable(String),
    /// The catalog was read but its content is not a usable list of entries.
    Malformed(String),
}

impl CatalogError {
    /// The explanation carried by the error.
    pub open spec fn spec_message(&self) -> Seq<char> {
        match self {
            CatalogError::Unreadable(message) => message@,
            CatalogError::Malformed(message) => message@,
        }
    }

    /// The explanation carried by the error.
    pub fn message(&self) -> (text: String)
        ensures
            text@ == self.spec_message(),
    {
        match self {
            CatalogError::Unreadable(message) => message.clone(),
            CatalogError::Malformed(message) => message.clone(),
        }
    }
}

/// The signatures that the entries hold, each under the label of the last
/// entry that has its bytes. Entries with an empty signature hold none.
pub open spec fn catalog_signatures(entries: Seq<SignatureEntry>) -> Signatures
    decreases entries.len(),
{
    if entries.len() == 0 {
        Map::empty()
    } else {
        with_signature(
            catalog_signatures(entries.drop_last()),
            entries.last().signature@,
            entries.last().file_type@,
        )
    }
}

/// The distinct offsets that the entries name.
pub open spec fn catalog_offsets(entries: Seq<SignatureEntry>) -> Set<u32> {
    Set::new(|offset: u32| exists|i: int| 0 <= i < entries.len() && #[trigger] entries[i].offset == offset)
}

/// The largest offset among the entries, 0 for an empty catalog.
pub open spec fn max_offset(entries: Seq<SignatureEntry>) -> nat
    decreases entries.len(),
{
    if entries.len() == 0 {
        0
    } else {
        let rest = max_offset(entries.drop_last());
        let last = entries.last().offset as nat;
        if last > rest {
            last
        } else {
            rest
        }
    }
}

/// The length of the longest signature among the entries, 0 for an empty
/// catalog.
pub open spec fn max_signature_len(entries: Seq<SignatureEntry>) -> nat
    decreases entries.len(),
{
    if entries.len() == 0 {
        0
    } else {
        let rest = max_signature_len(entries.drop_last());
        let last = entries.last().signature@.len();
        if last > rest {
            last
        } else {
            rest
        }
    }
}

/// The number of leading bytes of a file that lets every signature be tested
/// at every offset: the largest offset plus the longest signature.
pub open spec fn buffer_size_needed(entries: Seq<SignatureEntry>) -> nat {
    max_offset(entries) + max_signature_len(entries)
}

/// No entry's offset exceeds `max_offset`, and some entry reaches it unless
/// the catalog is empty.
pub proof fn lemma_max_offset(entries: Seq<SignatureEntry>)
    ensures
        forall|i: int| 0 <= i < entries.len() ==> (#[trigger] entries[i]).offset <= max_offset(entries),
        entries.len() > 0 ==> exists|i: int|
            0 <= i < entries.len() && (#[trigger] entries[i]).offset == max_offset(entries),
        entries.len() == 0 ==> max_offset(entries) == 0,
    decreases entries.len(),
{
    if entries.len() > 0 {
        let rest = entries.drop_last();
        lemma_max_offset(rest);
        assert forall|i: int| 0 <= i < entries.len() implies (#[trigger] entries[i]).offset <= max_offset(
            entries,
        ) by {
            if i < rest.len() {
                assert(rest[i] == entries[i]);
            }
        }
        if entries.last().offset as nat > max_offset(rest) || rest.len() == 0 {
            assert(entries[entries.len() - 1].offset == max_offset(entries));
        } else {
            let i = choose|i: int| 0 <= i < rest.len() && (#[trigger] rest[i]).offset == max_offset(rest);
            assert(entries[i] == rest[i]);
        }
    }
}

/// No entry's signature is longer than `max_signature_len`, and some entry's
/// signature has that length unless the catalog is empty.
pub proof fn lemma_max_signature_len(entries: Seq<SignatureEntry>)
    ensures
        forall|i: int|
            0 <= i < entries.len() ==> (#[trigger] entries[i]).signature@.len() <= max_signature_len(entries),
        entries.len() > 0 ==> exists|i: int|
            0 <= i < entries.len() && (#[trigger] entries[i]).signature@.len() == max_signature_len(entries),
        entries.len() == 0 ==> max_signature_len(entries) == 0,
    decreases entries.len(),
{
    if entries.len() > 0 {
        let rest = entries.drop_last();
        lemma_max_signature_len(rest);
        assert forall|i: int| 0 <= i < entries.len() implies (#[trigger] entries[i]).signature@.len()
            <= max_signature_len(entries) by {
            if i < rest.len() {
                assert(rest[i] == entries[i]);
            }
        }
        if entries.last().signature@.len() > max_signature_len(rest) || rest.len() == 0 {
            assert(entries[entries.len() - 1].signature@.len() == max_signature_len(entries));
        } else {
            let i = choose|i: int|
                0 <= i < rest.len() && (#[trigger] rest[i]).signature@.len() == max_signature_len(rest);
            assert(entries[i] == rest[i]);
        }
    }
}

/// The size needed covers every entry: its offset plus the length of its
/// signature.
pub proof fn lemma_buffer_size_covers_entries(entries: Seq<SignatureEntry>)
    ensures
        forall|i: int|
            0 <= i < entries.len() ==> (#[trigger] entries[i]).offset + entries[i].signature@.len()
                <= buffer_size_needed(entries),
{
    lemma_max_offset(entries);
    lemma_max_signature_len(entries);
}

/// Adding entries never makes the size needed smaller.
pub proof fn lemma_buffer_size_grows(entries: Seq<SignatureEntry>, n: int)
    requires
        0 <= n <= entries.len(),
    ensures
        max_offset(entries.take(n)) <= max_offset(entries),
        max_signature_len(entries.take(n)) <= max_signature_len(entries),
        buffer_size_needed(entries.take(n)) <= buffer_size_needed(entries),
    decreases entries.len() - n,
{
    if n < entries.len() {
        lemma_buffer_size_grows(entries.drop_last(), n);
        assert(entries.drop_last().take(n) == entries.take(n));
    } else {
        assert(entries.take(n) == entries);
    }
}

/// Some entry has exactly these bytes as its signature.
pub open spec fn names_signature(entries: Seq<SignatureEntry>, signature: Seq<u8>) -> bool {
    exists|i: int| 0 <= i < entries.len() && (#[trigger] entries[i]).signature@ == signature
}

/// No entry after the entry `i` has the same signature as the entry `i`.
pub open spec fn is_last_of_its_signature(entries: Seq<SignatureEntry>, i: int) -> bool {
    forall|j: int| i < j < entries.len() ==> (#[trigger] entries[j]).signature@ != entries[i].signature@
}

/// The signatures of a catalog are the non-empty signatures that its entries
/// name.
pub proof fn lemma_catalog_holds_what_entries_name(entries: Seq<SignatureEntry>, signature: Seq<u8>)
    ensures
        catalog_signatures(entries).contains_key(signature) <==> signature.len() > 0 && names_signature(
            entries,
            signature,
        ),
    decreases entries.len(),
{
    if entries.len() > 0 {
        let rest = entries.drop_last();
        lemma_catalog_holds_what_entries_name(rest, signature);
        if names_signature(rest, signature) {
            let i = choose|i: int| 0 <= i < rest.len() && (#[trigger] rest[i]).signature@ == signature;
            assert(entries[i].signature@ == signature);
        }
        if entries.last().signature@ == signature {
            assert(entries[entries.len() - 1].signature@ == signature);
        }
        if names_signature(entries, signature) {
            let i = choose|i: int| 0 <= i < entries.len() && (#[trigger] entries[i]).signature@ == signature;
            if i < rest.len() {
                assert(rest[i].signature@ == signature);
            }
        }
    }
}

/// A signature of a catalog has the label of the last entry that names it.
pub proof fn lemma_catalog_label_is_the_last(entries: Seq<SignatureEntry>, i: int)
    requires
        0 <= i < entries.len(),
        entries[i].signature@.len() > 0,
        is_last_of_its_signature(entries, i),
    ensures
        catalog_signatures(entries).contains_key(entries[i].signature@),
        catalog_signatures(entries)[entries[i].signature@] == entries[i].file_type@,
    decreases entries.len(),
{
    let rest = entries.drop_last();
    if i < rest.len() {
        assert(rest[i] == entries[i]);
        assert(entries[entries.len() - 1].signature@ != entries[i].signature@);
        assert forall|j: int| i < j < rest.len() implies (#[trigger] rest[j]).signature@ != rest[i].signature@ by {
            assert(rest[j] == entries[j]);
        }
        lemma_catalog_label_is_the_last(rest, i);
    }
}

} // verus!
