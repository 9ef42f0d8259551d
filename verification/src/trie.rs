//! A prefix tree over raw bytes that stores file signatures (magic numbers)
//! and finds the most specific signature that a byte buffer starts with.

use crate::catalog::{
    buffer_size_needed, catalog_offsets, catalog_signatures, lemma_buffer_size_grows, max_offset, max_signature_len,
    CatalogError, SignatureEntry, OVERSIZED,
};
use crate::matching::{
    lemma_longest_match_skips_misses, longest_match, longest_match_within, search_from, search_result,
    strictly_ascending, with_signature, Signatures,
};
use std::collections::hash_map::Entry;
use std::collections::HashMap;
use vstd::prelude::*;
use vstd::slice::slice_subrange;
use vstd::string::StringExecFns;

verus! {

broadcast use vstd::std_specs::hash::group_hash_axioms;

/// One node of the prefix tree. A node carries a label exactly when a
/// signature ends at it; its children are keyed by the next byte.
struct TrieNode {
    file_type: Option<String>,
    children: HashMap<u8, Box<TrieNode>>,
}

/// `path` starts with the first `n` bytes of `signature`.
spec fn starts_with(path: Seq<u8>, signature: Seq<u8>, n: int) -> bool {
    path.len() >= n && path.take(n) == signature.take(n)
}

impl TrieNode {
    /// The label of this node, as a sequence of characters.
    spec fn label(self) -> Option<Seq<char>> {
        match self.file_type {
            Some(file_type) => Some(file_type@),
            None => None,
        }
    }

    /// The child reached over the edge `byte`, if there is one.
    spec fn child(self, byte: u8) -> Option<TrieNode> {
        if self.children@.contains_key(byte) {
            Some(*self.children@[byte])
        } else {
            None
        }
    }

    /// The node reached from this one by following `path`, if every edge
    /// on the way exists.
    spec fn descend(self, path: Seq<u8>) -> Option<TrieNode>
        decreases path.len(),
    {
        if path.len() == 0 {
            Some(self)
        } else {
            match self.child(path[0]) {
                Some(next) => next.descend(path.drop_first()),
                None => None,
            }
        }
    }

    /// The label found at the end of `path`, if the path exists and a
    /// signature ends there.
    spec fn label_at(self, path: Seq<u8>) -> Option<Seq<char>> {
        match self.descend(path) {
            Some(node) => node.label(),
            None => None,
        }
    }

    /// The signatures stored below this node: the non-empty paths that end
    /// at a labelled node.
    spec fn signatures(self) -> Signatures {
        Map::new(
            |path: Seq<u8>| path.len() > 0 && self.label_at(path) is Some,
            |path: Seq<u8>| self.label_at(path).unwrap(),
        )
    }

    /// Following a path and then one more edge is following the longer path.
    proof fn lemma_descend_push(self, path: Seq<u8>, byte: u8)
        ensures
            self.descend(path.push(byte)) == match self.descend(path) {
                Some(node) => node.child(byte),
                None => None,
            },
        decreases path.len(),
    {
        let longer = path.push(byte);
        if path.len() == 0 {
            assert(longer.drop_first() =~= Seq::<u8>::empty());
            assert(longer[0] == byte);
            match self.child(byte) {
                Some(next) => {
                    assert(next.descend(longer.drop_first()) == Some(next));
                },
                None => {},
            }
        } else {
            assert(longer[0] == path[0]);
            assert(longer.drop_first() =~= path.drop_first().push(byte));
            match self.child(path[0]) {
                Some(next) => {
                    next.lemma_descend_push(path.drop_first(), byte);
                },
                None => {},
            }
        }
    }

    /// Once a prefix of `buf` leaves the tree, every longer prefix does too.
    proof fn lemma_descend_stays_out(self, buf: Seq<u8>, n: int, m: int)
        requires
            0 <= n <= m <= buf.len(),
            self.descend(buf.take(n)) is None,
        ensures
            self.descend(buf.take(m)) is None,
        decreases m - n,
    {
        if n < m {
            self.lemma_descend_stays_out(buf, n, m - 1);
            assert(buf.take(m) =~= buf.take(m - 1).push(buf[m - 1]));
            self.lemma_descend_push(buf.take(m - 1), buf[m - 1]);
        }
    }

    /// A node without a label and without children.
    fn new() -> (node: TrieNode)
        ensures
            node.file_type is None,
            node.children@ == Map::<u8, Box<TrieNode>>::empty(),
            forall|path: Seq<u8>| #[trigger] node.label_at(path) is None,
    {
        let node = TrieNode { file_type: None, children: HashMap::new() };
        assert forall|path: Seq<u8>| #[trigger] node.label_at(path) is None by {
            if path.len() > 0 {
                assert(node.child(path[0]) is None);
            }
        }
        node
    }

    /// Stores `label` at the end of the path `signature`, creating the nodes
    /// that the path lacks. Every other path keeps what it had.
    fn insert_path(self, signature: &[u8], label: String) -> (stored: TrieNode)
        ensures
            forall|path: Seq<u8>| #[trigger]
                stored.label_at(path) == if path == signature@ {
                    Some(label@)
                } else {
                    self.label_at(path)
                },
    {
        let ghost before = self;
        let ghost sig = signature@;
        let mut root = self;
        let mut curr_node = &mut root;
        let mut i: usize = 0;
        proof {
            assert forall|path: Seq<u8>| #[trigger]
                after_borrow(root).label_at(path) == if starts_with(path, sig, 0) {
                    final(curr_node).label_at(path.skip(0))
                } else {
                    before.label_at(path)
                } by {
                assert(path.take(0) =~= sig.take(0));
                assert(path.skip(0) =~= path);
            }
            assert forall|path: Seq<u8>| #[trigger]
                curr_node.label_at(path) == before.label_at(sig.take(0) + path) by {
                assert(sig.take(0) + path =~= path);
            }
        }
        while i < signature.len()
            invariant
                i <= signature@.len(),
                sig == signature@,
                forall|path: Seq<u8>| #[trigger]
                    after_borrow(root).label_at(path) == if starts_with(path, sig, i as int) {
                        final(curr_node).label_at(path.skip(i as int))
                    } else {
                        before.label_at(path)
                    },
                forall|path: Seq<u8>| #[trigger]
                    curr_node.label_at(path) == before.label_at(sig.take(i as int) + path),
            decreases signature@.len() - i,
        {
            let byte = signature[i];
            let ghost parent = *curr_node;
            let ghost parent_final = *final(curr_node);
            let child = match curr_node.children.entry(byte) {
                Entry::Occupied(occupied) => occupied.into_mut(),
                Entry::Vacant(vacant) => vacant.insert(Box::new(TrieNode::new())),
            };
            let ghost child_now = **child;
            curr_node = &mut **child;
            proof {
                let next = i as int + 1;
                assert(parent_final.children@ == parent.children@.insert(byte, Box::new(*final(curr_node))));
                assert(parent.child(byte) is Some ==> parent.child(byte) == Some(child_now));
                assert forall|path: Seq<u8>| #[trigger]
                    curr_node.label_at(path) == before.label_at(sig.take(next) + path) by {
                    let longer = seq![byte] + path;
                    assert(longer.drop_first() =~= path);
                    assert(sig.take(next) + path =~= sig.take(i as int) + longer);
                    assert(parent.label_at(longer) == before.label_at(sig.take(i as int) + longer));
                }
                assert forall|path: Seq<u8>| #[trigger]
                    after_borrow(root).label_at(path) == if starts_with(path, sig, next) {
                        final(curr_node).label_at(path.skip(next))
                    } else {
                        before.label_at(path)
                    } by {
                    let rest = path.skip(i as int);
                    if starts_with(path, sig, next) {
                        assert(path.take(i as int) =~= path.take(next).take(i as int));
                        assert(sig.take(i as int) =~= sig.take(next).take(i as int));
                        assert(rest[0] == path.take(next)[i as int]);
                        assert(rest.drop_first() =~= path.skip(next));
                        assert(parent_final.child(byte) == Some(*final(curr_node)));
                    } else if starts_with(path, sig, i as int) {
                        assert(sig.take(i as int) + rest =~= path);
                        assert(parent.label_at(rest) == before.label_at(sig.take(i as int) + rest));
                        if rest.len() > 0 {
                            if rest[0] == byte {
                                assert(path.take(next) =~= sig.take(next));
                            }
                            assert(parent_final.child(rest[0]) == parent.child(rest[0]));
                        }
                    }
                }
            }
            i += 1;
        }
        let ghost last = *curr_node;
        curr_node.file_type = Some(label);
        proof {
            let n = sig.len() as int;
            let last_final = *curr_node;
            assert(sig.take(n) =~= sig);
            assert forall|path: Seq<u8>| #[trigger]
                root.label_at(path) == if path == sig {
                    Some(label@)
                } else {
                    before.label_at(path)
                } by {
                let rest = path.skip(n);
                if starts_with(path, sig, n) {
                    assert(sig + rest =~= path);
                    assert(last.label_at(rest) == before.label_at(sig.take(n) + rest));
                    if rest.len() > 0 {
                        assert(last_final.child(rest[0]) == last.child(rest[0]));
                    } else {
                        assert(path =~= sig);
                    }
                } else {
                    if path == sig {
                        assert(path.take(n) =~= sig.take(n));
                    }
                }
            }
        }
        root
    }

    /// Stores `signature` under `label` below a root node. An empty
    /// signature stores nothing, so the root stays without a label.
    fn store(self, signature: &[u8], label: String) -> (stored: TrieNode)
        requires
            self.file_type is None,
        ensures
            stored.file_type is None,
            stored.signatures() == with_signature(self.signatures(), signature@, label@),
    {
        if signature.len() == 0 {
            return self;
        }
        let stored = self.insert_path(signature, label);
        proof {
            assert(stored.label_at(Seq::<u8>::empty()) == self.label_at(Seq::<u8>::empty()));
            assert(stored.signatures() =~= self.signatures().insert(signature@, label@));
        }
        stored
    }
}

/// Puts `offset` into its place among the ascending `offsets`, unless it is
/// among them already.
fn record_offset(offsets: &mut Vec<u32>, offset: u32)
    requires
        strictly_ascending(old(offsets)@),
    ensures
        strictly_ascending(final(offsets)@),
        final(offsets)@.to_set() == old(offsets)@.to_set().insert(offset),
{
    let ghost before = offsets@;
    let mut at: usize = 0;
    while at < offsets.len() && offsets[at] < offset
        invariant
            at <= offsets@.len(),
            offsets@ == before,
            forall|j: int| 0 <= j < at ==> before[j] < offset,
        decreases offsets@.len() - at,
    {
        at += 1;
    }
    if at < offsets.len() && offsets[at] == offset {
        assert(before.contains(offset));
        assert(before.to_set().insert(offset) =~= before.to_set());
        return ;
    }
    offsets.insert(at, offset);
    proof {
        let after = offsets@;
        before.insert_ensures(at as int, offset);
        assert forall|i: int, j: int| 0 <= i < j < after.len() implies after[i] < after[j] by {
            if i > at {
                assert(after[i] == before[i - 1]);
            }
            if j > at {
                assert(after[j] == before[j - 1]);
            }
        }
        assert forall|x: u32| after.contains(x) <==> (before.contains(x) || x == offset) by {
            if after.contains(x) {
                let i = choose|i: int| 0 <= i < after.len() && after[i] == x;
                if i < at {
                    assert(before[i] == x);
                } else if i > at {
                    assert(before[i - 1] == x);
                }
            }
            if before.contains(x) {
                let i = choose|i: int| 0 <= i < before.len() && before[i] == x;
                if i < at {
                    assert(after[i] == x);
                } else {
                    assert(after[i + 1] == x);
                }
            }
            if x == offset {
                assert(after[at as int] == x);
            }
        }
        assert(after.to_set() =~= before.to_set().insert(offset));
    }
}

/// A catalog of file signatures, ready to be searched.
///
/// The signatures live in a prefix tree whose root carries no label. Beside
/// the tree the catalog keeps the offsets at which signatures are looked for,
/// in ascending order and without repeats, and the number of leading bytes of
/// a file that a search may need.
pub struct MagicNumberTrie {
    root: TrieNode,
    max_buffer_size: u32,
    max_offset_len: u32,
    max_signature_len: u32,
    possible_offsets: Vec<u32>,
}

impl View for MagicNumberTrie {
    type V = Signatures;

    /// The signatures in the catalog, each with its label.
    closed spec fn view(&self) -> Signatures {
        self.root.signatures()
    }
}

impl MagicNumberTrie {
    /// What holds of every catalog: the root of the tree has no label, the
    /// offsets ascend without repeats, and the buffer size is the sum of the
    /// largest offset and the longest signature's length.
    #[verifier::type_invariant]
    spec fn well_formed(self) -> bool {
        &&& self.root.file_type is None
        &&& strictly_ascending(self.possible_offsets@)
        &&& self.max_buffer_size == self.max_offset_len + self.max_signature_len
    }

    /// The offsets at which a search looks for signatures, in search order.
    pub closed spec fn offsets(&self) -> Seq<u32> {
        self.possible_offsets@
    }

    /// The largest offset of the catalog.
    pub closed spec fn spec_max_offset_len(&self) -> u32 {
        self.max_offset_len
    }

    /// The length of the longest signature of the catalog.
    pub closed spec fn spec_max_signature_len(&self) -> u32 {
        self.max_signature_len
    }

    /// The number of leading bytes of a file that a search may need.
    pub closed spec fn spec_max_buffer_size(&self) -> u32 {
        self.max_buffer_size
    }

    /// The empty byte sequence is never a signature of the catalog.
    pub proof fn lemma_no_empty_signature(&self)
        ensures
            !self@.contains_key(Seq::<u8>::empty()),
    {
    }

    /// A catalog without signatures and without offsets.
    pub fn new() -> (trie: MagicNumberTrie)
        ensures
            trie@ == Map::<Seq<u8>, Seq<char>>::empty(),
            trie.offsets() == Seq::<u32>::empty(),
            trie.spec_max_offset_len() == 0,
            trie.spec_max_signature_len() == 0,
            trie.spec_max_buffer_size() == 0,
    {
        let root = TrieNode::new();
        assert(root.signatures() =~= Map::<Seq<u8>, Seq<char>>::empty());
        MagicNumberTrie {
            root,
            max_buffer_size: 0,
            max_offset_len: 0,
            max_signature_len: 0,
            possible_offsets: Vec::new(),
        }
    }

    /// Builds the catalog that the entries describe.
    ///
    /// Every signature is stored under its entry's label, a later entry
    /// replacing an earlier one with the same bytes. The offsets of all the
    /// entries are kept in ascending order, each once. The buffer size is the
    /// largest offset plus the length of the longest signature, so that every
    /// signature can be tested at every offset. An entry with an empty
    /// signature stores no signature; its offset counts like any other.
    ///
    /// The buffer size is a 32-bit number. A catalog that needs more is
    /// rejected as malformed; no other catalog is rejected.
    pub fn from_entries(entries: &Vec<SignatureEntry>) -> (built: Result<MagicNumberTrie, CatalogError>)
        ensures
            built is Ok <==> buffer_size_needed(entries@) <= u32::MAX,
            match built {
                Ok(trie) => {
                    &&& trie@ == catalog_signatures(entries@)
                    &&& strictly_ascending(trie.offsets())
                    &&& trie.offsets().to_set() == catalog_offsets(entries@)
                    &&& trie.spec_max_offset_len() == max_offset(entries@)
                    &&& trie.spec_max_signature_len() == max_signature_len(entries@)
                    &&& trie.spec_max_buffer_size() == buffer_size_needed(entries@)
                },
                Err(error) => error is Malformed && error.spec_message() == OVERSIZED@,
            },
    {
        let mut root = TrieNode::new();
        let mut possible_offsets: Vec<u32> = Vec::new();
        let mut largest_offset: u32 = 0;
        let mut longest_signature: u32 = 0;
        let mut i: usize = 0;
        proof {
            assert(root.signatures() =~= catalog_signatures(entries@.take(0)));
            assert(possible_offsets@.to_set() =~= catalog_offsets(entries@.take(0)));
        }
        while i < entries.len()
            invariant
                i <= entries@.len(),
                root.file_type is None,
                root.signatures() == catalog_signatures(entries@.take(i as int)),
                strictly_ascending(possible_offsets@),
                possible_offsets@.to_set() == catalog_offsets(entries@.take(i as int)),
                largest_offset == max_offset(entries@.take(i as int)),
                longest_signature == max_signature_len(entries@.take(i as int)),
            decreases entries@.len() - i,
        {
            let entry = &entries[i];
            let ghost seen = entries@.take(i as int);
            let ghost now = entries@.take(i + 1);
            proof {
                assert(now.drop_last() =~= seen);
                assert(now.last() == entries@[i as int]);
                lemma_buffer_size_grows(entries@, i + 1);
            }
            if entry.signature.len() > 0xFFFF_FFFF {
                return Err(CatalogError::Malformed(String::from_str(OVERSIZED)));
            }
            root = root.store(entry.signature.as_slice(), entry.file_type.clone());
            record_offset(&mut possible_offsets, entry.offset);
            if largest_offset < entry.offset {
                largest_offset = entry.offset;
            }
            let signature_len = entry.signature.len() as u32;
            if longest_signature < signature_len {
                longest_signature = signature_len;
            }
            proof {
                assert forall|offset: u32|
                    catalog_offsets(now).contains(offset) <==> catalog_offsets(seen).insert(
                        entry.offset,
                    ).contains(offset) by {
                    if catalog_offsets(now).contains(offset) {
                        let j = choose|j: int| 0 <= j < now.len() && #[trigger] now[j].offset == offset;
                        if j < i {
                            assert(seen[j].offset == offset);
                        }
                    }
                    if catalog_offsets(seen).contains(offset) {
                        let j = choose|j: int| 0 <= j < seen.len() && #[trigger] seen[j].offset == offset;
                        assert(now[j].offset == offset);
                    }
                    if offset == entry.offset {
                        assert(now[i as int].offset == offset);
                    }
                }
                assert(possible_offsets@.to_set() =~= catalog_offsets(now));
            }
            i += 1;
        }
        proof {
            assert(entries@.take(i as int) =~= entries@);
        }
        match largest_offset.checked_add(longest_signature) {
            Some(max_buffer_size) => Ok(
                MagicNumberTrie {
                    root,
                    max_buffer_size,
                    max_offset_len: largest_offset,
                    max_signature_len: longest_signature,
                    possible_offsets,
                },
            ),
            None => Err(CatalogError::Malformed(String::from_str(OVERSIZED))),
        }
    }

    /// The number of leading bytes of a file that a search may need: the
    /// largest offset plus the length of the longest signature.
    #[verifier::when_used_as_spec(spec_max_buffer_size)]
    pub fn max_buffer_size(&self) -> (size: u32)
        ensures
            size == self.spec_max_buffer_size(),
            size == self.spec_max_offset_len() + self.spec_max_signature_len(),
    {
        proof {
            use_type_invariant(self);
        }
        self.max_buffer_size
    }

    /// The offsets at which a search looks for signatures: ascending, each
    /// once.
    pub fn possible_offsets(&self) -> (offsets: &Vec<u32>)
        ensures
            offsets@ == self.offsets(),
            strictly_ascending(offsets@),
    {
        proof {
            use_type_invariant(self);
        }
        &self.possible_offsets
    }

    /// Stores the signature `file_header` under the label `file_type`.
    ///
    /// A label stored earlier for the same bytes is replaced. An empty
    /// signature is ignored: the catalog stays as it was. The offsets and the
    /// buffer size are not touched.
    pub fn insert(&mut self, file_header: &[u8], file_type: String)
        ensures
            final(self)@ == with_signature(old(self)@, file_header@, file_type@),
            final(self).offsets() == old(self).offsets(),
            final(self).spec_max_offset_len() == old(self).spec_max_offset_len(),
            final(self).spec_max_signature_len() == old(self).spec_max_signature_len(),
            final(self).spec_max_buffer_size() == old(self).spec_max_buffer_size(),
    {
        proof {
            use_type_invariant(&*self);
        }
        let mut root = TrieNode::new();
        std::mem::swap(&mut root, &mut self.root);
        self.root = root.store(file_header, file_type);
    }

    /// The label of the longest stored signature that `file_header` starts
    /// with, or `None` when it starts with none of them.
    pub fn trie_match(&self, file_header: &[u8]) -> (best_match: Option<String>)
        ensures
            best_match.deep_view() == longest_match(self@, file_header@),
    {
        let ghost buf = file_header@;
        let ghost sigs = self@;
        let mut curr_node = &self.root;
        let mut best_match: Option<String> = None;
        let mut i: usize = 0;
        assert(buf.take(0) =~= Seq::<u8>::empty());
        while i < file_header.len()
            invariant
                i <= file_header@.len(),
                buf == file_header@,
                sigs == self.root.signatures(),
                self.root.descend(buf.take(i as int)) == Some(*curr_node),
                best_match.deep_view() == longest_match_within(sigs, buf, i as nat),
            ensures
                i <= file_header@.len(),
                best_match.deep_view() == longest_match_within(sigs, buf, i as nat),
                forall|j: int| i < j <= buf.len() ==> !sigs.contains_key(#[trigger] buf.take(j)),
            decreases file_header@.len() - i,
        {
            let byte = file_header[i];
            proof {
                assert(buf.take(i + 1) =~= buf.take(i as int).push(byte));
                self.root.lemma_descend_push(buf.take(i as int), byte);
            }
            match curr_node.children.get(&byte) {
                Some(next_node) => {
                    curr_node = &**next_node;
                    if let Some(file_type) = &curr_node.file_type {
                        best_match = Some(file_type.clone());
                    }
                    assert(self.root.label_at(buf.take(i + 1)) == curr_node.label());
                },
                None => {
                    assert forall|j: int| i < j <= buf.len() implies !sigs.contains_key(
                        #[trigger] buf.take(j),
                    ) by {
                        self.root.lemma_descend_stays_out(buf, i + 1, j);
                    }
                    break ;
                },
            }
            i += 1;
        }
        proof {
            lemma_longest_match_skips_misses(sigs, buf, i as nat, buf.len());
        }
        best_match
    }

    /// Identifies the type of a file from its leading bytes.
    ///
    /// The offsets are tried in ascending order. An offset beyond the end of
    /// `file_header` is passed over. At each other offset the bytes from that
    /// offset on are matched against the signatures, and the first offset at
    /// which anything matches decides the result: the label of the longest
    /// signature that matches there. `None` means that the bytes are not
    /// recognized.
    pub fn search(&self, file_header: &[u8]) -> (file_type: Option<String>)
        ensures
            file_type.deep_view() == search_result(self@, self.offsets(), file_header@),
    {
        let ghost buf = file_header@;
        let mut k: usize = 0;
        while k < self.possible_offsets.len()
            invariant
                k <= self.possible_offsets@.len(),
                buf == file_header@,
                search_result(self@, self.offsets(), buf) == search_from(self@, self.offsets(), buf, k as int),
            decreases self.possible_offsets@.len() - k,
        {
            let offset = self.possible_offsets[k] as usize;
            if file_header.len() >= offset {
                let slice_to_check = slice_subrange(file_header, offset, file_header.len());
                assert(slice_to_check@ =~= buf.skip(offset as int));
                if let Some(file_type) = self.trie_match(slice_to_check) {
                    return Some(file_type);
                }
            }
            k += 1;
        }
        None
    }
}

impl Default for MagicNumberTrie {
    /// A catalog without signatures and without offsets.
    fn default() -> (trie: MagicNumberTrie)
        ensures
            trie@ == Map::<Seq<u8>, Seq<char>>::empty(),
            trie.offsets() == Seq::<u32>::empty(),
            trie.spec_max_offset_len() == 0,
            trie.spec_max_signature_len() == 0,
            trie.spec_max_buffer_size() == 0,
    {
        MagicNumberTrie::new()
    }
}

} // verus!
