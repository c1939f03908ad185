//! A fuzzy matcher: ranks candidate strings by how well a query matches them
//! as a subsequence, with a per-candidate letter bitset as a cheap pre-filter.

use vstd::prelude::*;
use vstd::multiset::Multiset;

verus! {

/// The number of distinct letter buckets a query bitset distinguishes.
pub const NUM_CHARS: u8 = 127;

/// True if the character is ASCII.
pub open spec fn spec_is_ascii(c: char) -> bool {
    (c as int) < 128
}

/// The ASCII-lowercase code of a character, as an integer: uppercase ASCII
/// letters are folded to their lowercase counterpart, everything else is its
/// own code.
pub open spec fn spec_lower(c: char) -> int {
    if 65 <= c as int && c as int <= 90 {
        c as int + 32
    } else {
        c as int
    }
}

/// The bitset bucket a letter code falls into.
pub open spec fn spec_letter_index(letter: int) -> int {
    letter % (NUM_CHARS as int)
}

/// The set of letter buckets occupied by the ASCII characters of `s`,
/// case-folded.
pub open spec fn query_bits(s: Seq<char>) -> Set<int> {
    Set::new(
        |b: int|
            exists|k: int|
                0 <= k < s.len() && spec_is_ascii(s[k]) && b == spec_letter_index(
                    spec_lower(s[k]),
                ),
    )
}

/// True if the character is ASCII.
pub fn char_is_ascii(c: char) -> (r: bool)
    ensures
        r == spec_is_ascii(c),
{
    (c as u32) < 128
}

/// The ASCII-lowercase code of a character.
pub fn char_lower(c: char) -> (r: u32)
    ensures
        r == spec_lower(c),
{
    let v: u32 = c as u32;
    if 65 <= v && v <= 90 {
        v + 32
    } else {
        v
    }
}

/// The bitset bucket a letter falls into.
pub fn letter_to_index(letter: u8) -> (r: usize)
    ensures
        r == spec_letter_index(letter as int),
{
    (letter % NUM_CHARS) as usize
}

/// A set of letter buckets, backed by `bit_set::BitSet`; its contents are
/// reached only through `bitset_elems`.
#[verifier::external_body]
pub struct LetterBitset {
    bits: bit_set::BitSet,
}

/// The elements a `LetterBitset` currently holds.
pub uninterp spec fn bitset_elems(b: LetterBitset) -> Set<int>;

/// Relies on `bit_set::BitSet::with_capacity`: creates a set with initially no
/// contents.
#[verifier::external_body]
fn bitset_with_capacity(nbits: usize) -> (r: LetterBitset)
    ensures
        bitset_elems(r) == Set::<int>::empty(),
{
    LetterBitset { bits: bit_set::BitSet::with_capacity(nbits) }
}

/// Relies on `bit_set::BitSet::insert`: adds the value to the set's contents,
/// which otherwise stay as they were.
#[verifier::external_body]
fn bitset_insert(b: &mut LetterBitset, value: usize)
    ensures
        bitset_elems(*final(b)) == bitset_elems(*old(b)).insert(value as int),
{
    b.bits.insert(value);
}

/// Relies on `bit_set::BitSet::is_subset`: true iff every element of `a` is
/// also an element of `b`.
#[verifier::external_body]
fn bitset_is_subset(a: &LetterBitset, b: &LetterBitset) -> (r: bool)
    ensures
        r == bitset_elems(*a).subset_of(bitset_elems(*b)),
{
    a.bits.is_subset(&b.bits)
}

/// Relies on `str::chars`: yields the characters of the string, in order.
#[verifier::external_body]
fn chars_of(s: &str) -> (r: Vec<char>)
    ensures
        r@ == s@,
{
    s.chars().collect()
}

/// Builds the letter bitset of `s`: one bit per occupied letter bucket,
/// ASCII characters only, case-folded.
pub fn make_query_bitset(s: &str) -> (r: LetterBitset)
    ensures
        bitset_elems(r) == query_bits(s@),
{
    let chars: Vec<char> = chars_of(s);
    let mut bitset: LetterBitset = bitset_with_capacity(NUM_CHARS as usize);
    let n: usize = chars.len();
    let mut i: usize = 0;
    while i < n
        invariant
            n == chars.len(),
            chars@ == s@,
            i <= n,
            bitset_elems(bitset) =~= query_bits(s@.take(i as int)),
        decreases n - i,
    {
        let c: char = chars[i];
        if char_is_ascii(c) {
            let lower: u32 = char_lower(c);
            let idx: usize = letter_to_index(lower as u8);
            bitset_insert(&mut bitset, idx);
            proof {
                assert(spec_lower(c) < 128);
                assert(lower as u8 as int == spec_lower(c));
                lemma_query_bits_extend(s@, i as int);
            }
        } else {
            proof {
                lemma_query_bits_extend(s@, i as int);
            }
        }
        i = i + 1;
    }
    proof {
        assert(s@.take(n as int) =~= s@);
    }
    bitset
}

/// Extending the prefix by one character adds that character's bucket if it
/// is ASCII, and nothing otherwise.
proof fn lemma_query_bits_extend(s: Seq<char>, i: int)
    requires
        0 <= i < s.len(),
    ensures
        spec_is_ascii(s[i]) ==> query_bits(s.take(i + 1)) =~= query_bits(s.take(i)).insert(
            spec_letter_index(spec_lower(s[i])),
        ),
        !spec_is_ascii(s[i]) ==> query_bits(s.take(i + 1)) =~= query_bits(s.take(i)),
{
    let pre = s.take(i);
    let ext = s.take(i + 1);
    assert forall|b: int| query_bits(pre).contains(b) implies query_bits(ext).contains(b) by {
        let k = choose|k: int|
            0 <= k < pre.len() && spec_is_ascii(pre[k]) && b == spec_letter_index(
                spec_lower(pre[k]),
            );
        assert(ext[k] == pre[k]);
        assert(0 <= k < ext.len() && spec_is_ascii(ext[k])
            && b == spec_letter_index(spec_lower(ext[k])));
    }
    assert forall|b: int| query_bits(ext).contains(b) implies (query_bits(pre).contains(b) || (
    spec_is_ascii(s[i]) && b == spec_letter_index(spec_lower(s[i])))) by {
        let k = choose|k: int|
            0 <= k < ext.len() && spec_is_ascii(ext[k]) && b == spec_letter_index(
                spec_lower(ext[k]),
            );
        if k < i {
            assert(pre[k] == ext[k]);
            assert(0 <= k < pre.len() && spec_is_ascii(pre[k])
                && b == spec_letter_index(spec_lower(pre[k])));
        } else {
            assert(ext[k] == s[i]);
        }
    }
    if spec_is_ascii(s[i]) {
        assert(ext[i] == s[i]);
        assert(query_bits(ext).contains(spec_letter_index(spec_lower(s[i]))));
    }
}

/// MatchCase when comparing strings or not.
#[derive(Clone, Copy)]
pub enum MatchCase {
    Yes,
    No,
}

/// Whether a query character accepts a candidate character, exactly or
/// case-folded.
pub open spec fn spec_match_char(q: char, c: char, mc: MatchCase) -> bool {
    match mc {
        MatchCase::Yes => q == c,
        MatchCase::No => spec_lower(q) == spec_lower(c),
    }
}

/// The greedy subsequence match of `query` (from position `j`) against
/// `cand` (from position `i`): the indices, in `cand`, where the remaining
/// query characters land, or `None` if the query cannot be matched.
/// Non-ASCII candidate characters are passed over but keep their index.
pub open spec fn spec_subsequence(
    cand: Seq<char>,
    i: int,
    query: Seq<char>,
    j: int,
    mc: MatchCase,
) -> Option<Seq<int>>
    decreases cand.len() - i,
{
    if j >= query.len() {
        Some(Seq::empty())
    } else if i >= cand.len() {
        None
    } else if !spec_is_ascii(cand[i]) {
        spec_subsequence(cand, i + 1, query, j, mc)
    } else if spec_match_char(query[j], cand[i], mc) {
        match spec_subsequence(cand, i + 1, query, j + 1, mc) {
            Some(rest) => Some(seq![i] + rest),
            None => None,
        }
    } else {
        spec_subsequence(cand, i + 1, query, j, mc)
    }
}

/// Prepends already-matched indices to the outcome of the remaining match.
pub open spec fn opt_extend(pre: Seq<int>, rest: Option<Seq<int>>) -> Option<Seq<int>> {
    match rest {
        Some(r) => Some(pre + r),
        None => None,
    }
}

/// The indices of a successful match lie between the start position and the
/// candidate's length, and there are no more of them than candidate
/// characters left.
proof fn lemma_subsequence_bounds(cand: Seq<char>, i: int, query: Seq<char>, j: int, mc: MatchCase)
    requires
        0 <= i,
    ensures
        spec_subsequence(cand, i, query, j, mc) matches Some(v) ==> {
            &&& forall|k: int| 0 <= k < v.len() ==> i <= #[trigger] v[k] < cand.len()
            &&& i + v.len() <= cand.len() || v.len() == 0
        },
    decreases cand.len() - i,
{
    if j >= query.len() {
    } else if i >= cand.len() {
    } else if !spec_is_ascii(cand[i]) {
        lemma_subsequence_bounds(cand, i + 1, query, j, mc);
    } else if spec_match_char(query[j], cand[i], mc) {
        lemma_subsequence_bounds(cand, i + 1, query, j + 1, mc);
    } else {
        lemma_subsequence_bounds(cand, i + 1, query, j, mc);
    }
}

/// Every query character a successful match still has to place is ASCII and
/// shares its case-folded code with some ASCII candidate character at or
/// after the start position.
proof fn lemma_subsequence_chars(cand: Seq<char>, i: int, query: Seq<char>, j: int, mc: MatchCase)
    requires
        0 <= i,
        0 <= j,
        spec_subsequence(cand, i, query, j, mc) is Some,
    ensures
        forall|k: int|
            j <= k < query.len() ==> spec_is_ascii(#[trigger] query[k]) && exists|m: int|
                i <= m < cand.len() && spec_is_ascii(cand[m]) && spec_lower(query[k])
                    == spec_lower(cand[m]),
    decreases cand.len() - i,
{
    if j >= query.len() {
    } else if i >= cand.len() {
    } else if !spec_is_ascii(cand[i]) {
        lemma_subsequence_chars(cand, i + 1, query, j, mc);
    } else if spec_match_char(query[j], cand[i], mc) {
        if spec_subsequence(cand, i + 1, query, j + 1, mc) is Some {
            lemma_subsequence_chars(cand, i + 1, query, j + 1, mc);
            assert(spec_is_ascii(query[j]) && i <= i < cand.len() && spec_is_ascii(cand[i])
                && spec_lower(query[j]) == spec_lower(cand[i]));
        }
    } else {
        lemma_subsequence_chars(cand, i + 1, query, j, mc);
    }
}

/// A candidate whose letter bitset misses a bucket of the query's bitset
/// cannot match the query: the pre-filter never drops a true match.
pub proof fn lemma_bitset_filter_sound(cand: Seq<char>, query: Seq<char>, mc: MatchCase)
    requires
        !query_bits(query).subset_of(query_bits(cand)),
    ensures
        spec_subsequence(cand, 0, query, 0, mc) is None,
{
    if spec_subsequence(cand, 0, query, 0, mc) is Some {
        lemma_subsequence_chars(cand, 0, query, 0, mc);
        assert forall|b: int| query_bits(query).contains(b) implies query_bits(cand).contains(
            b,
        ) by {
            let k = choose|k: int|
                0 <= k < query.len() && spec_is_ascii(query[k]) && b == spec_letter_index(
                    spec_lower(query[k]),
                );
            assert(spec_is_ascii(query[k]));
            let m = choose|m: int|
                0 <= m < cand.len() && spec_is_ascii(cand[m]) && spec_lower(query[k])
                    == spec_lower(cand[m]);
            assert(0 <= m < cand.len() && spec_is_ascii(cand[m]) && b == spec_letter_index(
                spec_lower(cand[m]),
            ));
        }
    }
}

/// Returns the indices at which `query` matches `candidate` as a subsequence,
/// greedily from the left, or `None` if there is no match. Higher index sums
/// rate the match worse.
pub fn is_subsequence(candidate: &str, query: &str, match_case: MatchCase) -> (r: Option<
    Vec<usize>,
>)
    ensures
        r matches Some(v) ==> spec_subsequence(candidate@, 0, query@, 0, match_case) == Some(
            v@.map_values(|x: usize| x as int),
        ),
        r is None ==> spec_subsequence(candidate@, 0, query@, 0, match_case) is None,
{
    let cand: Vec<char> = chars_of(candidate);
    let q: Vec<char> = chars_of(query);
    let n: usize = cand.len();
    let m: usize = q.len();
    let mut matching_indices: Vec<usize> = Vec::new();
    let mut i: usize = 0;
    let mut j: usize = 0;
    while i < n
        invariant
            i <= n,
            j <= m,
            n == cand@.len(),
            m == q@.len(),
            cand@ == candidate@,
            q@ == query@,
            spec_subsequence(candidate@, 0, query@, 0, match_case) == opt_extend(
                matching_indices@.map_values(|x: usize| x as int),
                spec_subsequence(candidate@, i as int, query@, j as int, match_case),
            ),
        decreases n - i,
    {
        let ghost pre = matching_indices@.map_values(|x: usize| x as int);
        let ghost cur = spec_subsequence(candidate@, i as int, query@, j as int, match_case);
        if j >= m {
            proof {
                assert(cur == Some(Seq::<int>::empty()));
                assert(pre + Seq::<int>::empty() =~= pre);
            }
            return Some(matching_indices);
        }
        let c: char = cand[i];
        let advance: bool = if char_is_ascii(c) {
            let qc: char = q[j];
            match match_case {
                MatchCase::Yes => qc == c,
                MatchCase::No => char_lower(qc) == char_lower(c),
            }
        } else {
            false
        };
        if advance {
            matching_indices.push(i);
            proof {
                let nxt = spec_subsequence(candidate@, i + 1, query@, j + 1, match_case);
                assert(cur == (match nxt {
                    Some(rest) => Some(seq![i as int] + rest),
                    None => None::<Seq<int>>,
                }));
                assert(matching_indices@.map_values(|x: usize| x as int) =~= pre.push(i as int));
                match nxt {
                    Some(rest) => {
                        assert(pre + (seq![i as int] + rest) =~= pre.push(i as int) + rest);
                    },
                    None => {},
                }
            }
            j = j + 1;
        } else {
            proof {
                assert(cur == spec_subsequence(candidate@, i + 1, query@, j as int, match_case));
            }
        }
        i = i + 1;
    }
    if j < m {
        proof {
            assert(spec_subsequence(candidate@, n as int, query@, j as int, match_case) is None);
        }
        None
    } else {
        proof {
            assert(spec_subsequence(candidate@, n as int, query@, j as int, match_case) == Some(
                Seq::<int>::empty(),
            ));
            assert(matching_indices@.map_values(|x: usize| x as int) + Seq::<int>::empty()
                =~= matching_indices@.map_values(|x: usize| x as int));
        }
        Some(matching_indices)
    }
}


/// The sum of a sequence of integers.
pub open spec fn sum_seq(s: Seq<int>) -> int
    decreases s.len(),
{
    if s.len() == 0 {
        0
    } else {
        sum_seq(s.drop_last()) + s.last()
    }
}

/// Sums the match indices into the match's score; `b` bounds every index so
/// that the sum provably fits in a `usize`.
fn sum_indices(v: &Vec<usize>, Ghost(b): Ghost<int>) -> (r: usize)
    requires
        forall|k: int| 0 <= k < v@.len() ==> (#[trigger] v@[k] as int) < b,
        v@.len() * b <= usize::MAX,
    ensures
        r as int == sum_seq(v@.map_values(|x: usize| x as int)),
{
    let ghost m = v@.map_values(|x: usize| x as int);
    let n: usize = v.len();
    let mut acc: usize = 0;
    let mut k: usize = 0;
    while k < n
        invariant
            k <= n,
            n == v@.len(),
            m == v@.map_values(|x: usize| x as int),
            forall|t: int| 0 <= t < v@.len() ==> (#[trigger] v@[t] as int) < b,
            v@.len() * b <= usize::MAX,
            acc as int == sum_seq(m.take(k as int)),
            acc as int <= (k as int) * b,
        decreases n - k,
    {
        proof {
            assert(m.take(k as int + 1).drop_last() =~= m.take(k as int));
            assert(m.take(k as int + 1).last() == v@[k as int] as int);
            assert((v@[k as int] as int) < b);
            assert((k as int + 1) * b == (k as int) * b + b) by (nonlinear_arith);
            assert((k as int + 1) * b <= (n as int) * b) by (nonlinear_arith)
                requires
                    k as int + 1 <= n as int,
                    b >= 0,
            ;
        }
        acc = acc + v[k];
        k = k + 1;
    }
    proof {
        assert(m.take(n as int) =~= m);
    }
    acc
}

/// A candidate string together with its letter bitset, precomputed so that
/// queries can be pre-filtered cheaply.
pub struct Candidate {
    text: String,
    query_bitset: LetterBitset,
}

impl View for Candidate {
    type V = Seq<char>;

    closed spec fn view(&self) -> Seq<char> {
        self.text@
    }
}

impl Candidate {
    /// The candidate's bitset records exactly the letter buckets of its text,
    /// and the text is short enough that any match score fits in a `usize`.
    pub closed spec fn wf(self) -> bool {
        &&& bitset_elems(self.query_bitset) == query_bits(self.text@)
        &&& self.text@.len() * self.text@.len() <= usize::MAX
    }

    /// Builds a candidate from its text. The length bound keeps every later
    /// match score within `usize`.
    pub fn new(text: &str) -> (r: Self)
        requires
            text@.len() * text@.len() <= usize::MAX,
        ensures
            r@ == text@,
            r.wf(),
    {
        Candidate { text: text.to_owned(), query_bitset: make_query_bitset(text) }
    }

    /// True iff every letter bucket of the query bitset also occurs in this
    /// candidate's bitset: a cheap necessary condition for a match.
    pub fn matches_query_bitset(&self, bitset: &LetterBitset) -> (r: bool)
        requires
            self.wf(),
        ensures
            r == bitset_elems(*bitset).subset_of(query_bits(self@)),
    {
        bitset_is_subset(bitset, &self.query_bitset)
    }
}

/// One match: the candidate's text, the indices where the query landed, and
/// the score (the sum of those indices; higher is worse).
pub struct QueryResult {
    pub text: String,
    pub matching_indices: Vec<usize>,
    score: usize,
}

/// The mathematical content of a `QueryResult`.
pub struct QueryResultView {
    pub text: Seq<char>,
    pub indices: Seq<int>,
    pub score: int,
}

impl View for QueryResult {
    type V = QueryResultView;

    closed spec fn view(&self) -> QueryResultView {
        QueryResultView {
            text: self.text@,
            indices: self.matching_indices@.map_values(|x: usize| x as int),
            score: self.score as int,
        }
    }
}

/// The match `query` produces against one candidate text, if any.
pub open spec fn spec_query_one(text: Seq<char>, q: Seq<char>, mc: MatchCase) -> Option<
    QueryResultView,
> {
    match spec_subsequence(text, 0, q, 0, mc) {
        Some(v) => Some(QueryResultView { text: text, indices: v, score: sum_seq(v) }),
        None => None,
    }
}

/// The matches `query` produces against a sequence of candidate texts, in
/// order.
pub open spec fn spec_query(cands: Seq<Seq<char>>, q: Seq<char>, mc: MatchCase) -> Seq<
    QueryResultView,
>
    decreases cands.len(),
{
    if cands.len() == 0 {
        Seq::empty()
    } else {
        let rest = spec_query(cands.drop_last(), q, mc);
        match spec_query_one(cands.last(), q, mc) {
            Some(r) => rest.push(r),
            None => rest,
        }
    }
}

/// Results ordered by ascending score: the best match first.
pub open spec fn sorted_by_score(s: Seq<QueryResultView>) -> bool {
    forall|k: int, l: int|
        #![trigger s[k].score, s[l].score]
        0 <= k < l < s.len() ==> s[k].score <= s[l].score
}

/// The views of a sequence of results, elementwise.
pub open spec fn views_of(s: Seq<QueryResult>) -> Seq<QueryResultView> {
    s.map_values(|r: QueryResult| r@)
}

/// Inserting an element anywhere in a sequence adds exactly it to the
/// sequence's multiset.
proof fn lemma_insert_to_multiset<T>(s: Seq<T>, i: int, e: T)
    requires
        0 <= i <= s.len(),
    ensures
        s.insert(i, e).to_multiset() == s.to_multiset().insert(e),
{
    broadcast use vstd::seq_lib::group_to_multiset_ensures;
    broadcast use vstd::seq_lib::lemma_multiset_commutative;

    let ins = s.insert(i, e);
    assert(ins =~= s.take(i) + (seq![e] + s.skip(i)));
    assert(s =~= s.take(i) + s.skip(i));
    assert(seq![e].to_multiset() =~= Multiset::<T>::empty().insert(e)) by {
        assert(seq![e] =~= Seq::<T>::empty().push(e));
        assert(Seq::<T>::empty().to_multiset() =~= Multiset::<T>::empty());
    }
    assert(ins.to_multiset() =~= s.to_multiset().insert(e));
}

/// Removing the element at `i` and inserting it back elsewhere leaves the
/// sequence's multiset unchanged.
proof fn lemma_reinsert_to_multiset<T>(s: Seq<T>, i: int, p: int)
    requires
        0 <= i < s.len(),
        0 <= p <= s.len() - 1,
    ensures
        s.remove(i).insert(p, s[i]).to_multiset() == s.to_multiset(),
{
    broadcast use vstd::seq_lib::group_to_multiset_ensures;

    lemma_insert_to_multiset(s.remove(i), p, s[i]);
    assert(s.to_multiset().contains(s[i]));
    assert(s.remove(i).to_multiset().insert(s[i]) =~= s.to_multiset());
}

/// Sorts the results by ascending score, keeping exactly the same matches.
fn sort_results(v: &mut Vec<QueryResult>)
    ensures
        sorted_by_score(views_of(final(v)@)),
        views_of(final(v)@).to_multiset() == views_of(old(v)@).to_multiset(),
{
    if v.len() <= 1 {
        return;
    }
    let mut i: usize = 1;
    while i < v.len()
        invariant
            1 <= i <= v@.len(),
            sorted_by_score(views_of(v@.take(i as int))),
            views_of(v@).to_multiset() == views_of(old(v)@).to_multiset(),
        decreases v@.len() - i,
    {
        let ghost before = v@;
        let x = v.remove(i);
        let mut pos: usize = 0;
        while pos < i && v[pos].score <= x.score
            invariant
                pos <= i,
                i < before.len(),
                v@ == before.remove(i as int),
                x == before[i as int],
                forall|t: int| 0 <= t < pos ==> (#[trigger] before[t]@).score <= x@.score,
            decreases i - pos,
        {
            proof {
                assert(v@[pos as int] == before[pos as int]);
            }
            pos = pos + 1;
        }
        v.insert(pos, x);
        proof {
            let mb = views_of(before);
            assert(v@ == before.remove(i as int).insert(pos as int, x));
            assert(views_of(v@) =~= mb.remove(i as int).insert(pos as int, x@));
            assert(mb[i as int] == x@);
            lemma_reinsert_to_multiset(mb, i as int, pos as int);
            let mnow = views_of(v@.take(i as int + 1));
            assert forall|k: int, l: int|
                #![trigger mnow[k].score, mnow[l].score]
                0 <= k < l < mnow.len() implies mnow[k].score <= mnow[l].score by {
                assert(forall|t: int|
                    0 <= t < i + 1 ==> mnow[t] == (#[trigger] v@.take(i as int + 1)[t])@);
                assert(forall|t: int| 0 <= t < pos ==> v@[t] == before[t]);
                assert(v@[pos as int] == x);
                assert(forall|t: int| pos < t < i + 1 ==> v@[t] == before[t - 1]);
                assert(forall|t: int|
                    0 <= t < i ==> views_of(before.take(i as int))[t] == (#[trigger] before[t])@);
                if pos < i {
                    assert(x@.score < before[pos as int]@.score);
                }
            }
            assert(sorted_by_score(mnow));
        }
        i = i + 1;
    }
    proof {
        assert(v@.take(v@.len() as int) =~= v@);
        assert(views_of(v@.take(v@.len() as int)) =~= views_of(v@));
    }
}

/// A deduplicated collection of candidates, queried as a whole.
pub struct CandidateSet {
    candidates: Vec<Candidate>,
}

impl View for CandidateSet {
    type V = Seq<Seq<char>>;

    closed spec fn view(&self) -> Seq<Seq<char>> {
        self.candidates@.map_values(|c: Candidate| c@)
    }
}

impl CandidateSet {
    /// Every stored candidate is well formed and no two share a text.
    pub closed spec fn wf(self) -> bool {
        &&& forall|k: int|
            0 <= k < self.candidates@.len() ==> (#[trigger] self.candidates@[k]).wf()
        &&& forall|k: int, l: int|
            0 <= k < l < self.candidates@.len() ==> self.candidates@[k]@ != self.candidates@[l]@
    }

    /// An empty set of candidates.
    pub fn new() -> (r: Self)
        ensures
            r@ == Seq::<Seq<char>>::empty(),
            r.wf(),
    {
        CandidateSet { candidates: Vec::new() }
    }

    /// How many distinct candidates the set holds.
    pub fn len(&self) -> (r: usize)
        ensures
            r == self@.len(),
    {
        self.candidates.len()
    }

    /// Adds a candidate text; a text already present is not added again.
    /// The length bound keeps every later match score within `usize`.
    pub fn insert(&mut self, text: &str)
        requires
            old(self).wf(),
            text@.len() * text@.len() <= usize::MAX,
        ensures
            final(self).wf(),
            final(self)@ == if old(self)@.contains(text@) {
                old(self)@
            } else {
                old(self)@.push(text@)
            },
    {
        let n: usize = self.candidates.len();
        let mut k: usize = 0;
        while k < n
            invariant
                k <= n,
                n == self.candidates@.len(),
                *self == *old(self),
                self.wf(),
                forall|t: int| 0 <= t < k ==> (#[trigger] self.candidates@[t])@ != text@,
            decreases n - k,
        {
            if str_eq(self.candidates[k].text.as_str(), text) {
                proof {
                    assert(self@[k as int] == text@);
                    assert(*self == *old(self));
                }
                return ;
            }
            k = k + 1;
        }
        proof {
            assert(forall|t: int| 0 <= t < self@.len() ==> self@[t] == (#[trigger] self.candidates@[t])@);
            assert(!self@.contains(text@));
        }
        let ghost prior = self.candidates@;
        self.candidates.push(Candidate::new(text));
        proof {
            assert(self@ =~= prior.map_values(|c: Candidate| c@).push(text@));
        }
    }

    /// Collects into `results` every candidate the query matches, each with
    /// its match indices and score, best score first.
    pub fn query(&self, query: &str, match_case: MatchCase, results: &mut Vec<QueryResult>)
        requires
            self.wf(),
        ensures
            sorted_by_score(views_of(final(results)@)),
            views_of(final(results)@).to_multiset() == spec_query(
                self@,
                query@,
                match_case,
            ).to_multiset(),
    {
        broadcast use vstd::seq_lib::group_to_multiset_ensures;

        let query_bitset: LetterBitset = make_query_bitset(query);
        results.clear();
        let n: usize = self.candidates.len();
        let mut i: usize = 0;
        while i < n
            invariant
                i <= n,
                n == self.candidates@.len(),
                self.wf(),
                bitset_elems(query_bitset) == query_bits(query@),
                views_of(results@).to_multiset() == spec_query(
                    self@.take(i as int),
                    query@,
                    match_case,
                ).to_multiset(),
            decreases n - i,
        {
            broadcast use vstd::seq_lib::group_to_multiset_ensures;

            let ghost prior = results@;
            let candidate: &Candidate = &self.candidates[i];
            proof {
                assert(self@[i as int] == candidate@);
                assert(self@.take(i as int + 1).drop_last() =~= self@.take(i as int));
                assert(self@.take(i as int + 1).last() == candidate@);
            }
            if candidate.matches_query_bitset(&query_bitset) {
                match is_subsequence(candidate.text.as_str(), query, match_case) {
                    Some(matching_indices) => {
                        proof {
                            lemma_subsequence_bounds(candidate@, 0, query@, 0, match_case);
                            let idx = matching_indices@.map_values(|x: usize| x as int);
                            assert(forall|t: int|
                                0 <= t < idx.len() ==> 0 <= #[trigger] idx[t] < candidate@.len());
                            assert(idx.len() <= candidate@.len());
                            assert(idx.len() * candidate@.len() <= candidate@.len()
                                * candidate@.len()) by (nonlinear_arith)
                                requires
                                    idx.len() <= candidate@.len(),
                            ;
                            assert(self.candidates@[i as int].wf());
                            assert(candidate@.len() * candidate@.len() <= usize::MAX);
                            assert forall|t: int|
                                0 <= t < matching_indices@.len() implies (
                            #[trigger] matching_indices@[t] as int) < candidate@.len() by {
                                assert(idx[t] == matching_indices@[t] as int);
                            }
                            assert(matching_indices@.len() * candidate@.len() <= usize::MAX);
                        }
                        let score: usize = sum_indices(
                            &matching_indices,
                            Ghost(candidate@.len() as int),
                        );
                        let r = QueryResult {
                            text: candidate.text.clone(),
                            matching_indices,
                            score,
                        };
                        proof {
                            assert(r@ == spec_query_one(candidate@, query@, match_case)->Some_0);
                            assert(views_of(results@.push(r)) =~= views_of(results@).push(r@));
                        }
                        results.push(r);
                    },
                    None => {
                        proof {
                            assert(spec_query_one(candidate@, query@, match_case) is None);
                        }
                    },
                }
            } else {
                proof {
                    lemma_bitset_filter_sound(candidate@, query@, match_case);
                    assert(spec_query_one(candidate@, query@, match_case) is None);
                }
            }
            i = i + 1;
        }
        proof {
            assert(self@.take(n as int) =~= self@);
        }
        sort_results(results);
    }
}

/// Relies on `str` equality: true iff the two strings hold the same
/// characters.
#[verifier::external_body]
pub(crate) fn str_eq(a: &str, b: &str) -> (r: bool)
    ensures
        r == (a@ == b@),
{
    a == b
}

} // verus!
