use vstd::prelude::*;

pub mod density;
pub mod image;
pub mod similarity;

verus! {

/// Number of columns (and rows) of the retina grid.
pub const GRID_WIDTH: usize = 128;

/// Number of cells of the retina grid: 128 rows of 128 columns.
pub const GRID_SIZE: usize = 16384;

/// Name of the retina used when a request does not choose one.
pub const DEFAULT_RETINA_NAME: &'static str = "en_general";

/// Metadata of a retina as the service describes it.
#[derive(Clone, Debug, Default, PartialEq)]
pub struct Retina {
    pub retina_name: String,
    pub number_of_columns: u32,
    pub number_of_terms_in_retina: u64,
    pub description: String,
    pub number_of_rows: u32,
}

/// A sparse binary fingerprint: the active bit positions on the retina.
#[derive(Clone, Debug, Default, PartialEq)]
pub struct Fingerprint {
    pub positions: Vec<u32>,
}

/// True when `p` is one of the listed positions.
pub open spec fn is_listed(positions: Seq<u32>, p: int) -> bool {
    exists|k: int| 0 <= k < positions.len() && positions[k] as int == p
}

/// Every listed position addresses a cell of a vector of length `len`.
pub open spec fn positions_below(positions: Seq<u32>, len: nat) -> bool {
    forall|k: int| 0 <= k < positions.len() ==> (positions[k] as nat) < len
}

/// No position is listed twice.
pub open spec fn positions_unique(positions: Seq<u32>) -> bool {
    forall|j: int, k: int|
        0 <= j < positions.len() && 0 <= k < positions.len() && j != k ==> positions[j]
            != positions[k]
}

/// The dense 0/1 vector of length `len` with a one exactly at the listed positions.
pub open spec fn expanded(positions: Seq<u32>, len: nat) -> Seq<u8> {
    Seq::new(len, |i: int| if is_listed(positions, i) { 1u8 } else { 0u8 })
}

/// Number of entries equal to one in `v`.
pub open spec fn count_ones(v: Seq<u8>) -> nat
    decreases v.len(),
{
    if v.len() == 0 {
        0
    } else {
        count_ones(v.drop_last()) + if v.last() == 1 { 1nat } else { 0nat }
    }
}

/// Number of entries equal to zero in `v`.
pub open spec fn count_zeros(v: Seq<u8>) -> nat
    decreases v.len(),
{
    if v.len() == 0 {
        0
    } else {
        count_zeros(v.drop_last()) + if v.last() == 0 { 1nat } else { 0nat }
    }
}

/// Setting entry `p` of `v` to one adds one to the count of ones, unless it already was one.
pub proof fn lemma_count_ones_set(v: Seq<u8>, p: int)
    requires
        0 <= p < v.len(),
    ensures
        count_ones(v.update(p, 1u8)) == count_ones(v) + if v[p] == 1 { 0nat } else { 1nat },
    decreases v.len(),
{
    let w = v.update(p, 1u8);
    if p == v.len() - 1 {
        assert(w.drop_last() =~= v.drop_last());
    } else {
        assert(w.drop_last() =~= v.drop_last().update(p, 1u8));
        lemma_count_ones_set(v.drop_last(), p);
    }
}

/// A vector of zeros has no ones.
pub proof fn lemma_count_ones_zero(v: Seq<u8>)
    requires
        forall|i: int| 0 <= i < v.len() ==> v[i] == 0,
    ensures
        count_ones(v) == 0,
    decreases v.len(),
{
    if v.len() > 0 {
        lemma_count_ones_zero(v.drop_last());
    }
}

/// In a 0/1 vector every entry is either a one or a zero.
pub proof fn lemma_ones_and_zeros(v: Seq<u8>)
    requires
        forall|i: int| 0 <= i < v.len() ==> v[i] <= 1,
    ensures
        count_ones(v) + count_zeros(v) == v.len(),
    decreases v.len(),
{
    if v.len() > 0 {
        lemma_ones_and_zeros(v.drop_last());
    }
}

/// Expanding the positions with one more position appended sets that one cell.
pub proof fn lemma_expanded_push(positions: Seq<u32>, p: u32, len: nat)
    requires
        (p as nat) < len,
    ensures
        expanded(positions.push(p), len) == expanded(positions, len).update(p as int, 1u8),
{
    let next = positions.push(p);
    let lhs = expanded(next, len);
    let rhs = expanded(positions, len).update(p as int, 1u8);
    assert forall|i: int| 0 <= i < len implies lhs[i] == rhs[i] by {
        if is_listed(positions, i) {
            let w = choose|w: int| 0 <= w < positions.len() && positions[w] as int == i;
            assert(next[w] == positions[w]);
        }
        if is_listed(next, i) && i != p as int {
            let w = choose|w: int| 0 <= w < next.len() && next[w] as int == i;
            assert(positions[w] == next[w]);
        }
        if i == p as int {
            assert(next[positions.len() as int] == p);
        }
    }
    assert(lhs =~= rhs);
}

/// An expanded fingerprint with unique positions holds exactly one one per position
/// and a zero in every other cell.
pub proof fn lemma_expand_counts(positions: Seq<u32>, len: nat)
    requires
        positions_below(positions, len),
        positions_unique(positions),
    ensures
        count_ones(expanded(positions, len)) == positions.len(),
        count_zeros(expanded(positions, len)) == len - positions.len(),
    decreases positions.len(),
{
    let v = expanded(positions, len);
    if positions.len() == 0 {
        lemma_count_ones_zero(v);
    } else {
        let rest = positions.drop_last();
        let p = positions.last();
        lemma_expand_counts(rest, len);
        assert(rest.push(p) =~= positions);
        lemma_expanded_push(rest, p, len);
        assert(!is_listed(rest, p as int)) by {
            if is_listed(rest, p as int) {
                let w = choose|w: int| 0 <= w < rest.len() && rest[w] as int == p as int;
                assert(positions[w] == positions[positions.len() - 1]);
            }
        }
        lemma_count_ones_set(expanded(rest, len), p as int);
    }
    lemma_ones_and_zeros(v);
}

/// Expanding a fingerprint whose positions are listed twice gives the same vector as
/// listing them once: setting an already set cell changes nothing.
pub proof fn lemma_expand_idempotent(positions: Seq<u32>, len: nat)
    ensures
        expanded(positions + positions, len) == expanded(positions, len),
{
    let twice = positions + positions;
    assert forall|i: int| 0 <= i < len implies is_listed(twice, i) == is_listed(positions, i) by {
        if is_listed(positions, i) {
            let w = choose|w: int| 0 <= w < positions.len() && positions[w] as int == i;
            assert(twice[w] == positions[w]);
        }
        if is_listed(twice, i) {
            let w = choose|w: int| 0 <= w < twice.len() && twice[w] as int == i;
            if w < positions.len() {
                assert(twice[w] == positions[w]);
            } else {
                assert(twice[w] == positions[w - positions.len()]);
            }
        }
    }
    assert(expanded(twice, len) =~= expanded(positions, len));
}

impl Fingerprint {
    /// The dense 0/1 vector of length `len` that this fingerprint describes.
    pub fn expand(&self, len: usize) -> (r: Vec<u8>)
        requires
            positions_below(self.positions@, len as nat),
        ensures
            r@ == expanded(self.positions@, len as nat),
    {
        let mut out: Vec<u8> = Vec::new();
        let mut i: usize = 0;
        while i < len
            invariant
                i <= len,
                out@.len() == i,
                forall|j: int| 0 <= j < i ==> out@[j] == 0,
            decreases len - i,
        {
            out.push(0u8);
            i = i + 1;
        }
        let n = self.positions.len();
        let mut k: usize = 0;
        while k < n
            invariant
                n == self.positions@.len(),
                k <= n,
                positions_below(self.positions@, len as nat),
                out@.len() == len,
                forall|j: int|
                    0 <= j < len ==> out@[j] == if is_listed(self.positions@.take(k as int), j) {
                        1u8
                    } else {
                        0u8
                    },
            decreases n - k,
        {
            let p = self.positions[k];
            out.set(p as usize, 1u8);
            proof {
                let prev = self.positions@.take(k as int);
                let next = self.positions@.take(k as int + 1);
                assert forall|j: int| 0 <= j < len implies out@[j] == if is_listed(next, j) {
                    1u8
                } else {
                    0u8
                } by {
                    if is_listed(prev, j) {
                        let w = choose|w: int| 0 <= w < prev.len() && prev[w] as int == j;
                        assert(next[w] == prev[w]);
                    }
                    if is_listed(next, j) && j != p as int {
                        let w = choose|w: int| 0 <= w < next.len() && next[w] as int == j;
                        assert(prev[w] == next[w]);
                    }
                    if j == p as int {
                        assert(next[k as int] == p);
                    }
                }
            }
            k = k + 1;
        }
        proof {
            assert(self.positions@.take(n as int) =~= self.positions@);
            assert(out@ =~= expanded(self.positions@, len as nat));
        }
        out
    }
}

/// A slice of a longer text, with the fingerprint of the slice when one was asked for.
#[derive(Clone, Debug, Default, PartialEq)]
pub struct TextSlice {
    pub text: String,
    pub fingerprint: Option<Fingerprint>,
}

/// Parameters of a request that cuts a text into slices.
#[derive(Clone, Debug, PartialEq)]
pub struct TextSliceRequest {
    pub retina_name: String,
    pub start_index: usize,
    pub max_results: usize,
    pub get_fingerprint: bool,
}

impl Default for TextSliceRequest {
    fn default() -> (r: Self)
        ensures
            r.retina_name@ == DEFAULT_RETINA_NAME@,
            r.start_index == 0,
            r.max_results == 10,
            !r.get_fingerprint,
    {
        TextSliceRequest {
            retina_name: DEFAULT_RETINA_NAME.to_owned(),
            start_index: 0,
            max_results: 10,
            get_fingerprint: false,
        }
    }
}

impl TextSliceRequest {
    /// The default request: the general English retina, from the first slice, at most ten.
    pub fn new() -> (r: Self)
        ensures
            r.retina_name@ == DEFAULT_RETINA_NAME@,
            r.start_index == 0,
            r.max_results == 10,
            !r.get_fingerprint,
    {
        Self::default()
    }

    /// The same request against the retina named `retina_name`.
    pub fn with_retina_name(self, retina_name: &str) -> (r: Self)
        ensures
            r.retina_name@ == retina_name@,
            r.start_index == self.start_index,
            r.max_results == self.max_results,
            r.get_fingerprint == self.get_fingerprint,
    {
        let mut s = self;
        s.retina_name = retina_name.to_owned();
        s
    }

    /// The same request starting from slice `start_index`.
    pub fn with_start_index(self, start_index: usize) -> (r: Self)
        ensures
            r.retina_name@ == self.retina_name@,
            r.start_index == start_index,
            r.max_results == self.max_results,
            r.get_fingerprint == self.get_fingerprint,
    {
        let mut s = self;
        s.start_index = start_index;
        s
    }

    /// The same request returning at most `max_results` slices.
    pub fn with_max_results(self, max_results: usize) -> (r: Self)
        ensures
            r.retina_name@ == self.retina_name@,
            r.start_index == self.start_index,
            r.max_results == max_results,
            r.get_fingerprint == self.get_fingerprint,
    {
        let mut s = self;
        s.max_results = max_results;
        s
    }

    /// The same request, asking for the fingerprint of each slice or not.
    pub fn with_get_fingerprint(self, get_fingerprint: bool) -> (r: Self)
        ensures
            r.retina_name@ == self.retina_name@,
            r.start_index == self.start_index,
            r.max_results == self.max_results,
            r.get_fingerprint == get_fingerprint,
    {
        let mut s = self;
        s.get_fingerprint = get_fingerprint;
        s
    }
}

/// A text wrapped as the service expects it in a request body.
#[derive(Clone, Debug, Default, PartialEq)]
pub struct TextEnvelope {
    pub text: String,
}

impl TextEnvelope {
    pub fn new(text: &str) -> (r: Self)
        ensures
            r.text@ == text@,
    {
        TextEnvelope { text: text.to_owned() }
    }
}

/// Request that creates a category filter from positive and negative example texts.
#[derive(Clone, Debug, Default, PartialEq)]
pub struct CreateCategoryFilterRequest {
    pub category_name: Option<String>,
    pub positive_examples: Vec<TextEnvelope>,
    pub negative_examples: Vec<TextEnvelope>,
}

/// A category filter: its name and the positions of its fingerprint.
#[derive(Clone, Debug, Default, PartialEq)]
pub struct CreateCategoryFilterResponse {
    pub category_name: String,
    pub positions: Vec<u32>,
}

/// The language that the service detected in a text.
#[derive(Clone, Debug, Default, PartialEq)]
pub struct LanguageResponse {
    pub language: Option<String>,
    pub iso_tag: Option<String>,
    pub wiki_url: Option<String>,
}

} // verus!
