//! The Merkle tree proper: construction level by level (with the
//! duplicate-last-node rule on odd-length levels), the root commitment,
//! membership proof generation, proof verification, and incremental
//! extension by one leaf.

use vstd::prelude::*;

use crate::hashing::{combine, combine_digests, hash_element, hash_of, Digest};

verus! {

/// Errors reported to the caller; these are contract violations by the
/// caller, never transient conditions.
#[derive(Debug, PartialEq, Eq)]
pub enum MerkleError {
    /// A proof was requested for an element no leaf digest matches.
    LeafNotFound,
    /// Construction was attempted with zero elements.
    EmptyData,
}

/// Which side a proof entry's sibling digest occupies when the combine step
/// is replayed during verification.
#[derive(Debug, Clone, Copy, PartialEq, Eq)]
pub enum Direction {
    Left,
    Right,
}

/// A membership proof: sibling digests with their sides, ordered from the
/// leaf's level up to (but not including) the root.
pub type MerkleProof = Vec<(Digest, Direction)>;

/// A Merkle tree, kept as a list of levels: `tree[0]` is the leaf digests,
/// each following level pairs up the one below, and the last level holds
/// exactly one digest, the root.
#[derive(Debug)]
pub struct MerkleTree {
    pub tree: Vec<Vec<Digest>>,
    pub leaves: Vec<Digest>,
}

/// The byte sequences of a list of raw elements.
pub open spec fn bytes_view(data: Seq<Vec<u8>>) -> Seq<Seq<u8>> {
    Seq::new(data.len(), |i: int| data[i]@)
}

/// The byte sequences of a list of digests.
pub open spec fn digests_view(s: Seq<Digest>) -> Seq<Seq<u8>> {
    Seq::new(s.len(), |i: int| s[i]@)
}

/// The level-by-level model of a stored tree.
pub open spec fn levels_view(t: Seq<Vec<Digest>>) -> Seq<Seq<Seq<u8>>> {
    Seq::new(t.len(), |k: int| digests_view(t[k]@))
}

/// The digests of the input elements, in input order: the leaf level.
pub open spec fn leaf_hashes(data: Seq<Seq<u8>>) -> Seq<Seq<u8>> {
    Seq::new(data.len(), |i: int| hash_of(data[i]))
}

/// The parent digest above position `j`: the combination of the pair
/// `(2j, 2j + 1)`, or of the last node with itself when `2j` is the last
/// index of an odd-length level.
pub open spec fn parent_at(level: Seq<Seq<u8>>, j: int) -> Seq<u8>
    recommends
        0 <= j < (level.len() + 1) / 2,
{
    if 2 * j + 1 < level.len() {
        combine(level[2 * j], level[2 * j + 1])
    } else {
        combine(level[2 * j], level[2 * j])
    }
}

/// The level above `level`: one parent digest per pair, scanning left to
/// right, with the duplicate-last-node rule on odd length.
pub open spec fn next_level(level: Seq<Seq<u8>>) -> Seq<Seq<u8>> {
    Seq::new((level.len() + 1) / 2, |j: int| parent_at(level, j))
}

/// The root digest determined by a leaf level: repeatedly pair up until one
/// digest is left. A single leaf is itself the root.
pub open spec fn root_of(level: Seq<Seq<u8>>) -> Seq<u8>
    recommends
        level.len() >= 1,
    decreases level.len(),
{
    if level.len() <= 1 {
        level[0]
    } else {
        root_of(next_level(level))
    }
}

/// A well-formed level structure: at least one level, each level above the
/// first is the pairing of the one below it, every level except the last
/// still has digests to pair, and the last level holds the root alone.
pub open spec fn levels_wf(ls: Seq<Seq<Seq<u8>>>) -> bool {
    &&& ls.len() >= 1
    &&& ls[0].len() >= 1
    &&& ls.last().len() == 1
    &&& forall|k: int|
        0 <= k < ls.len() - 1 ==> (#[trigger] ls[k]).len() >= 2 && ls[k + 1] == next_level(ls[k])
}

impl MerkleTree {
    /// The byte sequences of the leaf digests, in leaf order.
    pub open spec fn leaves_view(&self) -> Seq<Seq<u8>> {
        digests_view(self.leaves@)
    }

    /// The level-by-level model of the stored tree.
    pub open spec fn tree_view(&self) -> Seq<Seq<Seq<u8>>> {
        levels_view(self.tree@)
    }

    /// The root digest: the single entry of the last level.
    pub open spec fn root_view(&self) -> Seq<u8> {
        self.tree_view().last()[0]
    }

    /// Well-formedness: the stored levels are the well-formed structure
    /// grown from the stored leaves.
    pub open spec fn wf(&self) -> bool {
        &&& levels_wf(self.tree_view())
        &&& self.tree_view()[0] == self.leaves_view()
        &&& self.leaves_view().len() >= 1
    }
}

/// Byte-for-byte equality of two digests.
fn digests_equal(a: &Digest, b: &Digest) -> (eq: bool)
    ensures
        eq == (a@ == b@),
{
    let mut i: usize = 0;
    while i < 32
        invariant
            i <= 32,
            forall|t: int| 0 <= t < i ==> a@[t] == b@[t],
        decreases 32 - i,
    {
        if a[i] != b[i] {
            return false;
        }
        i = i + 1;
    }
    assert(a@ =~= b@);
    true
}

proof fn lemma_digests_view_push(s: Seq<Digest>, d: Digest)
    ensures
        digests_view(s.push(d)) == digests_view(s).push(d@),
{
    assert(digests_view(s.push(d)) =~= digests_view(s).push(d@));
}

proof fn lemma_levels_view_push(t: Seq<Vec<Digest>>, v: Vec<Digest>)
    ensures
        levels_view(t.push(v)) == levels_view(t).push(digests_view(v@)),
{
    assert(levels_view(t.push(v)) =~= levels_view(t).push(digests_view(v@)));
}

/// One duplicated copy of a digest list (level 0 of a fresh tree).
fn copy_digests(v: &Vec<Digest>) -> (r: Vec<Digest>)
    ensures
        r@ == v@,
{
    let mut r: Vec<Digest> = Vec::new();
    let mut i: usize = 0;
    while i < v.len()
        invariant
            i <= v@.len(),
            r@ == v@.take(i as int),
        decreases v@.len() - i,
    {
        r.push(v[i]);
        assert(r@ =~= v@.take(i + 1));
        i = i + 1;
    }
    assert(r@ =~= v@);
    r
}

/// The level above `level`, scanning pairs left to right and combining the
/// last node with itself when the level has odd length.
fn build_next_level(level: &Vec<Digest>) -> (next: Vec<Digest>)
    requires
        level@.len() >= 1,
    ensures
        digests_view(next@) == next_level(digests_view(level@)),
        next@.len() == (level@.len() + 1) / 2,
{
    let m: usize = level.len() / 2 + level.len() % 2;
    assert(m == (level@.len() + 1) / 2);
    let mut next: Vec<Digest> = Vec::new();
    let mut j: usize = 0;
    while j < m
        invariant
            m == (level@.len() + 1) / 2,
            1 <= level@.len() <= usize::MAX,
            j <= m,
            next@.len() == j,
            forall|t: int|
                0 <= t < j ==> digests_view(next@)[t] == parent_at(digests_view(level@), t),
        decreases m - j,
    {
        assert(2 * (j as int) < level@.len());
        let left = level[2 * j];
        let right = if 2 * j + 1 < level.len() {
            level[2 * j + 1]
        } else {
            left
        };
        let parent = combine_digests(&left, &right);
        let ghost prev = next@;
        next.push(parent);
        proof {
            lemma_digests_view_push(prev, parent);
        }
        j = j + 1;
    }
    assert(digests_view(next@) =~= next_level(digests_view(level@)));
    next
}

impl MerkleTree {
    /// Rebuilds the level structure from the stored leaves: level 0 is the
    /// leaves, and each following level pairs up the one below until a
    /// single digest is left.
    fn build(&mut self)
        requires
            old(self).leaves@.len() >= 1,
        ensures
            final(self).leaves == old(self).leaves,
            final(self).wf(),
    {
        let mut levels: Vec<Vec<Digest>> = Vec::new();
        let first = copy_digests(&self.leaves);
        let mut last_len: usize = first.len();
        let ghost leaves0 = self.leaves_view();
        levels.push(first);
        proof {
            assert(levels_view(levels@) =~= seq![leaves0]);
        }
        while last_len > 1
            invariant
                self.leaves_view() == leaves0,
                levels@.len() >= 1,
                last_len == levels_view(levels@).last().len(),
                last_len >= 1,
                levels_view(levels@)[0] == leaves0,
                leaves0.len() >= 1,
                forall|k: int|
                    0 <= k < levels@.len() - 1 ==> (#[trigger] levels_view(levels@)[k]).len() >= 2
                        && levels_view(levels@)[k + 1] == next_level(levels_view(levels@)[k]),
            decreases last_len,
        {
            let n = levels.len();
            let next = build_next_level(&levels[n - 1]);
            last_len = next.len();
            let ghost prev = levels@;
            levels.push(next);
            proof {
                lemma_levels_view_push(prev, next);
            }
        }
        self.tree = levels;
    }
}

/// Climbing the well-formed structure changes nothing: the root determined
/// by any level equals the stored topmost digest.
proof fn lemma_root_climb(ls: Seq<Seq<Seq<u8>>>, k: int)
    requires
        levels_wf(ls),
        0 <= k < ls.len(),
    ensures
        root_of(ls[k]) == ls.last()[0],
    decreases ls.len() - k,
{
    if k == ls.len() - 1 {
        assert(ls[k].len() == 1);
    } else {
        assert(ls[k].len() >= 2 && ls[k + 1] == next_level(ls[k]));
        lemma_root_climb(ls, k + 1);
    }
}

impl MerkleTree {
    /// Creates a Merkle tree whose leaves are the digests of `data`, in
    /// order. Fails exactly when `data` is empty: no partial tree is ever
    /// returned for an empty input.
    pub fn new(data: &Vec<Vec<u8>>) -> (result: Result<MerkleTree, MerkleError>)
        ensures
            result is Err <==> data@.len() == 0,
            result is Err ==> result->Err_0 == MerkleError::EmptyData,
            result is Ok ==> (result->Ok_0).wf() && (result->Ok_0).leaves_view() == leaf_hashes(
                bytes_view(data@),
            ),
    {
        if data.len() == 0 {
            return Err(MerkleError::EmptyData);
        }
        let mut leaves: Vec<Digest> = Vec::new();
        let mut i: usize = 0;
        while i < data.len()
            invariant
                i <= data@.len(),
                leaves@.len() == i,
                forall|t: int| 0 <= t < i ==> digests_view(leaves@)[t] == hash_of(data@[t]@),
            decreases data@.len() - i,
        {
            let d = hash_element(&data[i]);
            let ghost prev = leaves@;
            leaves.push(d);
            proof {
                lemma_digests_view_push(prev, d);
            }
            i = i + 1;
        }
        let mut tree = MerkleTree { tree: Vec::new(), leaves };
        tree.build();
        assert(tree.leaves_view() =~= leaf_hashes(bytes_view(data@)));
        Ok(tree)
    }

    /// The root digest of the tree: the commitment to the whole input
    /// sequence, a function of the leaf digests alone.
    pub fn root(&self) -> (r: Digest)
        requires
            self.wf(),
        ensures
            r@ == self.root_view(),
            r@ == root_of(self.leaves_view()),
    {
        proof {
            lemma_root_climb(self.tree_view(), 0);
        }
        let n = self.tree.len();
        let last = &self.tree[n - 1];
        last[0]
    }

    /// Appends the digest of one new element to the leaves and rebuilds the
    /// whole level structure. Proofs issued before the call are computed
    /// against a structurally different tree and must be regenerated.
    pub fn add(&mut self, data: Vec<u8>)
        requires
            old(self).wf(),
        ensures
            final(self).wf(),
            final(self).leaves_view() == old(self).leaves_view().push(hash_of(data@)),
    {
        let d = hash_element(&data);
        let ghost prev = self.leaves@;
        self.leaves.push(d);
        proof {
            lemma_digests_view_push(prev, d);
        }
        self.build();
    }
}

/// The side of the node at index `i` within its level: even indices sit on
/// the left of their pair, odd indices on the right.
pub open spec fn direction_of(i: int) -> Direction {
    if i % 2 == 0 {
        Direction::Left
    } else {
        Direction::Right
    }
}

/// The index of the sibling recorded for the node at index `i` in a level
/// of length `len`: the other half of the pair, or `i` itself when `i` is
/// the duplicated last node of an odd-length level.
pub open spec fn sibling_index(len: int, i: int) -> int
    recommends
        0 <= i < len,
{
    if i % 2 == 0 {
        if i + 1 < len {
            i + 1
        } else {
            i
        }
    } else {
        i - 1
    }
}

/// The side the sibling occupies when the combine step is replayed: always
/// the opposite of the proven node's side (a duplicated last node counts as
/// a left node, so its recorded sibling sits on the right).
pub open spec fn sibling_direction(i: int) -> Direction {
    if i % 2 == 0 {
        Direction::Right
    } else {
        Direction::Left
    }
}

/// The proof climbing from index `i` of `level` to the root: one
/// (sibling digest, sibling side) entry per level below the root.
pub open spec fn proof_from(level: Seq<Seq<u8>>, i: int) -> Seq<(Seq<u8>, Direction)>
    recommends
        0 <= i < level.len(),
    decreases level.len(),
{
    if level.len() <= 1 {
        Seq::empty()
    } else {
        seq![(level[sibling_index(level.len() as int, i)], sibling_direction(i))] + proof_from(
            next_level(level),
            i / 2,
        )
    }
}

/// One replayed combine step: the sibling digest is placed on its recorded
/// side, the running digest on the other.
pub open spec fn replay_step(current: Seq<u8>, entry: (Seq<u8>, Direction)) -> Seq<u8> {
    match entry.1 {
        Direction::Left => combine(entry.0, current),
        Direction::Right => combine(current, entry.0),
    }
}

/// Replaying a proof from a starting digest, leaf to root: fold the combine
/// step over the entries in order.
pub open spec fn replay(start: Seq<u8>, proof: Seq<(Seq<u8>, Direction)>) -> Seq<u8>
    decreases proof.len(),
{
    if proof.len() == 0 {
        start
    } else {
        replay(replay_step(start, proof[0]), proof.skip(1))
    }
}

/// The byte-sequence model of a stored proof.
pub open spec fn proof_view(p: Seq<(Digest, Direction)>) -> Seq<(Seq<u8>, Direction)> {
    Seq::new(p.len(), |i: int| (p[i].0@, p[i].1))
}

/// The side of the node at `index` within its level.
fn determine_direction(index: usize) -> (d: Direction)
    ensures
        d == direction_of(index as int),
{
    if index % 2 == 0 {
        Direction::Left
    } else {
        Direction::Right
    }
}

/// The first leaf whose digest equals `target`, if any.
fn find_leaf(leaves: &Vec<Digest>, target: &Digest) -> (r: Option<usize>)
    ensures
        match r {
            Some(i) => {
                &&& i < leaves@.len()
                &&& digests_view(leaves@)[i as int] == target@
                &&& forall|j: int| 0 <= j < i ==> digests_view(leaves@)[j] != target@
            },
            None => forall|j: int| 0 <= j < leaves@.len() ==> digests_view(leaves@)[j] != target@,
        },
{
    let mut i: usize = 0;
    while i < leaves.len()
        invariant
            i <= leaves@.len(),
            forall|j: int| 0 <= j < i ==> digests_view(leaves@)[j] != target@,
        decreases leaves@.len() - i,
    {
        if digests_equal(&leaves[i], target) {
            return Some(i);
        }
        i = i + 1;
    }
    None
}

impl MerkleTree {
    /// Produces the membership proof for the first leaf whose digest equals
    /// the digest of `data`, climbing from that leaf to the root. Fails
    /// exactly when no leaf digest matches.
    pub fn generate_proof(&self, data: &Vec<u8>) -> (result: Result<MerkleProof, MerkleError>)
        requires
            self.wf(),
        ensures
            result is Ok <==> exists|i: int|
                0 <= i < self.leaves_view().len() && #[trigger] self.leaves_view()[i] == hash_of(
                    data@,
                ),
            result is Err ==> result->Err_0 == MerkleError::LeafNotFound,
            result is Ok ==> exists|i: int|
                #![auto]
                {
                    &&& 0 <= i < self.leaves_view().len()
                    &&& self.leaves_view()[i] == hash_of(data@)
                    &&& forall|j: int| 0 <= j < i ==> self.leaves_view()[j] != hash_of(data@)
                    &&& proof_view(result->Ok_0@) == proof_from(self.leaves_view(), i)
                },
    {
        let target = hash_element(data);
        let leaf_index = match find_leaf(&self.leaves, &target) {
            Some(i) => i,
            None => {
                return Err(MerkleError::LeafNotFound);
            },
        };
        let ghost i0 = leaf_index as int;
        let mut proof: MerkleProof = Vec::new();
        let mut current_index = leaf_index;
        let mut level: usize = 0;
        let levels_count = self.tree.len();
        proof {
            assert(proof_view(proof@) + proof_from(self.tree_view()[0], i0) =~= proof_from(
                self.leaves_view(),
                i0,
            ));
        }
        while level < levels_count - 1
            invariant
                self.wf(),
                levels_count == self.tree@.len(),
                level < levels_count,
                0 <= i0 < self.leaves_view().len(),
                current_index < self.tree_view()[level as int].len(),
                proof_view(proof@) + proof_from(
                    self.tree_view()[level as int],
                    current_index as int,
                ) == proof_from(self.leaves_view(), i0),
            decreases levels_count - level,
        {
            let ghost lv = self.tree_view()[level as int];
            let ghost ci = current_index as int;
            let cur = &self.tree[level];
            let dir = determine_direction(current_index);
            let sib = match dir {
                Direction::Left => {
                    if current_index + 1 < cur.len() {
                        current_index + 1
                    } else {
                        current_index
                    }
                },
                Direction::Right => current_index - 1,
            };
            let sdir = match dir {
                Direction::Left => Direction::Right,
                Direction::Right => Direction::Left,
            };
            let entry = (cur[sib], sdir);
            let ghost prevp = proof@;
            proof.push(entry);
            proof {
                assert(lv.len() >= 2);
                assert(sib as int == sibling_index(lv.len() as int, ci));
                assert(entry.0@ == lv[sibling_index(lv.len() as int, ci)]);
                assert(entry.1 == sibling_direction(ci));
                assert(proof_view(proof@) =~= proof_view(prevp).push((entry.0@, entry.1)));
                assert(proof_from(lv, ci) == seq![(entry.0@, entry.1)] + proof_from(
                    next_level(lv),
                    ci / 2,
                ));
                assert(proof_view(proof@) + proof_from(next_level(lv), ci / 2) =~= proof_view(
                    prevp,
                ) + proof_from(lv, ci));
                assert(self.tree_view()[level as int + 1] == next_level(lv));
                assert(ci / 2 < next_level(lv).len());
            }
            current_index = current_index / 2;
            level = level + 1;
        }
        proof {
            assert(self.tree_view()[level as int].len() == 1);
            assert(proof_from(self.tree_view()[level as int], current_index as int)
                =~= Seq::<(Seq<u8>, Direction)>::empty());
            assert(proof_view(proof@) + Seq::<(Seq<u8>, Direction)>::empty() =~= proof_view(
                proof@,
            ));
            assert(proof_view(proof@) == proof_from(self.leaves_view(), i0));
        }
        Ok(proof)
    }
}

/// Replaying a proof extended by one entry applies that entry's combine
/// step to the result of replaying the shorter proof.
proof fn lemma_replay_push(start: Seq<u8>, p: Seq<(Seq<u8>, Direction)>, e: (Seq<u8>, Direction))
    ensures
        replay(start, p.push(e)) == replay_step(replay(start, p), e),
    decreases p.len(),
{
    if p.len() == 0 {
        assert(p.push(e)[0] == e);
        assert(p.push(e).skip(1) =~= Seq::<(Seq<u8>, Direction)>::empty());
        assert(replay(start, p.push(e)) == replay(replay_step(start, e), p.push(e).skip(1)));
        assert(replay(replay_step(start, e), Seq::<(Seq<u8>, Direction)>::empty()) == replay_step(
            start,
            e,
        ));
    } else {
        assert(p.push(e)[0] == p[0]);
        assert(p.push(e).skip(1) =~= p.skip(1).push(e));
        assert(replay(start, p.push(e)) == replay(replay_step(start, p[0]), p.skip(1).push(e)));
        lemma_replay_push(replay_step(start, p[0]), p.skip(1), e);
        assert(replay(start, p) == replay(replay_step(start, p[0]), p.skip(1)));
    }
}

impl MerkleTree {
    /// Checks a membership proof for `data` against this tree's root: hash
    /// `data`, fold the combine step over the proof entries leaf to root,
    /// and compare the outcome with the root digest. A mismatched proof is
    /// the expected, non-exceptional `false`, never an error.
    pub fn verify_proof(&self, data: &Vec<u8>, proof: &MerkleProof) -> (valid: bool)
        requires
            self.wf(),
        ensures
            valid == (replay(hash_of(data@), proof_view(proof@)) == self.root_view()),
    {
        let mut current = hash_element(data);
        let root = self.root();
        let mut k: usize = 0;
        while k < proof.len()
            invariant
                k <= proof@.len(),
                current@ == replay(hash_of(data@), proof_view(proof@).take(k as int)),
            decreases proof@.len() - k,
        {
            let entry = &proof[k];
            let next = match entry.1 {
                Direction::Left => combine_digests(&entry.0, &current),
                Direction::Right => combine_digests(&current, &entry.0),
            };
            proof {
                let pv = proof_view(proof@);
                assert(pv.take(k + 1) =~= pv.take(k as int).push(pv[k as int]));
                lemma_replay_push(hash_of(data@), pv.take(k as int), pv[k as int]);
                assert(next@ == replay_step(current@, pv[k as int]));
            }
            current = next;
            k = k + 1;
        }
        proof {
            assert(proof_view(proof@).take(proof@.len() as int) =~= proof_view(proof@));
        }
        digests_equal(&current, &root)
    }
}

/// For every leaf index of a non-empty level, replaying the proof climbing
/// from that index yields the root determined by the level: generated
/// proofs always verify against the matching root.
pub proof fn lemma_proof_replays_to_root(level: Seq<Seq<u8>>, i: int)
    requires
        level.len() >= 1,
        0 <= i < level.len(),
    ensures
        replay(level[i], proof_from(level, i)) == root_of(level),
    decreases level.len(),
{
    if level.len() == 1 {
        assert(proof_from(level, i) =~= Seq::<(Seq<u8>, Direction)>::empty());
    } else {
        let nl = next_level(level);
        let e = (level[sibling_index(level.len() as int, i)], sibling_direction(i));
        let rest = proof_from(nl, i / 2);
        assert(proof_from(level, i) == seq![e] + rest);
        assert((seq![e] + rest)[0] == e);
        assert((seq![e] + rest).skip(1) =~= rest);
        assert(replay(level[i], proof_from(level, i)) == replay(replay_step(level[i], e), rest));
        assert(replay_step(level[i], e) == parent_at(level, i / 2)) by {
            if i % 2 == 0 {
                assert(2 * (i / 2) == i);
            } else {
                assert(2 * (i / 2) == i - 1);
            }
        }
        assert(0 <= i / 2 < nl.len());
        assert(nl[i / 2] == parent_at(level, i / 2));
        lemma_proof_replays_to_root(nl, i / 2);
    }
}

impl MerkleTree {
    /// For every valid leaf index of a well-formed tree, the proof climbing
    /// from that leaf replays to the stored root.
    pub proof fn lemma_generated_proof_verifies(&self, i: int)
        requires
            self.wf(),
            0 <= i < self.leaves_view().len(),
        ensures
            replay(self.leaves_view()[i], proof_from(self.leaves_view(), i)) == self.root_view(),
    {
        lemma_proof_replays_to_root(self.leaves_view(), i);
        lemma_root_climb(self.tree_view(), 0);
    }
}

/// Every level of a well-formed structure is determined by the leaf level
/// alone: each level is the pairing of the one below it.
proof fn lemma_wf_level_determined(a: Seq<Seq<Seq<u8>>>, b: Seq<Seq<Seq<u8>>>, k: int)
    requires
        levels_wf(a),
        levels_wf(b),
        a[0] == b[0],
        0 <= k < a.len(),
        k < b.len(),
    ensures
        a[k] == b[k],
    decreases k,
{
    if k > 0 {
        lemma_wf_level_determined(a, b, k - 1);
    }
}

/// Two well-formed level structures over the same leaf level are identical.
proof fn lemma_wf_determined(a: Seq<Seq<Seq<u8>>>, b: Seq<Seq<Seq<u8>>>)
    requires
        levels_wf(a),
        levels_wf(b),
        a[0] == b[0],
    ensures
        a == b,
{
    if a.len() < b.len() {
        lemma_wf_level_determined(a, b, a.len() - 1);
        assert(b[a.len() - 1].len() >= 2);
        assert(false);
    }
    if b.len() < a.len() {
        lemma_wf_level_determined(b, a, b.len() - 1);
        assert(a[b.len() - 1].len() >= 2);
        assert(false);
    }
    assert forall|k: int| 0 <= k < a.len() implies a[k] == b[k] by {
        lemma_wf_level_determined(a, b, k);
    }
    assert(a =~= b);
}

impl MerkleTree {
    /// Building from the same leaf digests always gives the same levels and
    /// the same root: the commitment is deterministic, a function of the
    /// input sequence alone.
    pub proof fn lemma_root_deterministic(&self, other: &MerkleTree)
        requires
            self.wf(),
            other.wf(),
            self.leaves_view() == other.leaves_view(),
        ensures
            self.tree_view() == other.tree_view(),
            self.root_view() == other.root_view(),
    {
        lemma_wf_determined(self.tree_view(), other.tree_view());
    }
}

/// The number of levels a tree over `n` leaves has: one more than the
/// number of pairing rounds needed to reach a single digest, so
/// `ceil(log2(n)) + 1` for `n >= 1`.
pub open spec fn level_count(n: nat) -> nat
    decreases n,
{
    if n <= 1 {
        1
    } else {
        1 + level_count((n + 1) / 2)
    }
}

/// Counting upward from level `k`, the remaining height matches the
/// closed-form count for that level's width.
proof fn lemma_level_count_from(ls: Seq<Seq<Seq<u8>>>, k: int)
    requires
        levels_wf(ls),
        0 <= k < ls.len(),
    ensures
        ls.len() - k == level_count(ls[k].len()),
    decreases ls.len() - k,
{
    if k == ls.len() - 1 {
        assert(ls[k].len() == 1);
    } else {
        assert(ls[k].len() >= 2 && ls[k + 1] == next_level(ls[k]));
        lemma_level_count_from(ls, k + 1);
    }
}

impl MerkleTree {
    /// A well-formed tree over `n` leaves has exactly `level_count(n)`
    /// levels, whatever odd-then-even pattern the level widths run through.
    pub proof fn lemma_level_count(&self)
        requires
            self.wf(),
        ensures
            self.tree_view().len() == level_count(self.leaves_view().len()),
    {
        lemma_level_count_from(self.tree_view(), 0);
    }
}

/// After appending one more leaf digest, every index of the extended leaf
/// sequence, the new last one included, has a proof that replays to the
/// new root.
pub proof fn lemma_extended_leaves_provable(leaves: Seq<Seq<u8>>, d: Seq<u8>, i: int)
    requires
        0 <= i < leaves.len() + 1,
    ensures
        replay(leaves.push(d)[i], proof_from(leaves.push(d), i)) == root_of(leaves.push(d)),
{
    lemma_proof_replays_to_root(leaves.push(d), i);
}

} // verus!
