//! Category mapping: resolves textual position labels (possibly
//! slash-delimited multi-label strings) into category ids, per sport.

use vstd::prelude::*;

use crate::common::str_eq;

verus! {

/// The codepoint of `c` with an ASCII upper-case letter folded to lower
/// case.
pub open spec fn lower_char_val(c: char) -> int {
    if 65 <= c as int <= 90 {
        c as int + 32
    } else {
        c as int
    }
}

/// The two strings are equal up to ASCII case.
pub open spec fn eq_ic(a: Seq<char>, b: Seq<char>) -> bool {
    a.len() == b.len() && forall|i: int|
        0 <= i < a.len() ==> lower_char_val(#[trigger] a[i]) == lower_char_val(b[i])
}

/// Compares two strings ignoring ASCII case.
pub fn eq_ignore_ascii_case(a: &str, b: &str) -> (r: bool)
    ensures
        r == eq_ic(a@, b@),
{
    let la = a.unicode_len();
    let lb = b.unicode_len();
    if la != lb {
        return false;
    }
    let mut j: usize = 0;
    while j < la
        invariant
            j <= la,
            la == a@.len(),
            la == b@.len(),
            forall|jj: int| 0 <= jj < j ==> lower_char_val(#[trigger] a@[jj]) == lower_char_val(
                b@[jj],
            ),
        decreases la - j,
    {
        let ca = a.get_char(j) as u32;
        let cb = b.get_char(j) as u32;
        let fa = if ca >= 65 && ca <= 90 {
            ca + 32
        } else {
            ca
        };
        let fb = if cb >= 65 && cb <= 90 {
            cb + 32
        } else {
            cb
        };
        if fa != fb {
            return false;
        }
        j += 1;
    }
    true
}

/// A label-to-category-id mapping: the label at position `c` names category
/// `c`.
pub struct CategoryMap {
    labels: Vec<String>,
}

/// The first position holding `key`, scanning from `i` upward.
pub open spec fn lookup_from(m: Seq<Seq<char>>, key: Seq<char>, i: int) -> Option<int>
    decreases m.len() - i,
{
    if i < 0 || i >= m.len() {
        None
    } else if m[i] == key {
        Some(i)
    } else {
        lookup_from(m, key, i + 1)
    }
}

/// The category id of a label, if the map holds it.
pub open spec fn lookup(m: Seq<Seq<char>>, key: Seq<char>) -> Option<int> {
    lookup_from(m, key, 0)
}

/// A successful lookup returns a position inside the map.
pub proof fn lemma_lookup_bound(m: Seq<Seq<char>>, key: Seq<char>, i: int, c: int)
    requires
        lookup_from(m, key, i) == Some(c),
    ensures
        0 <= c < m.len(),
        m[c] == key,
    decreases m.len() - i,
{
    if !(i < 0 || i >= m.len()) && m[i] != key {
        lemma_lookup_bound(m, key, i + 1, c);
    }
}

impl View for CategoryMap {
    type V = Seq<Seq<char>>;

    closed spec fn view(&self) -> Seq<Seq<char>> {
        self.labels@.map_values(|s: String| s@)
    }
}

impl CategoryMap {
    /// Maps hold at most this many labels, so every category id fits the
    /// constraint-vector cells that the derivation step writes.
    #[verifier::type_invariant]
    pub closed spec fn inv(self) -> bool {
        self.labels@.len() <= 100
    }

    /// Builds a map from an ordered label list, refusing oversized lists.
    pub fn from_labels(labels: Vec<String>) -> (r: Option<CategoryMap>)
        ensures
            labels@.len() <= 100 ==> (r matches Some(m) && m@ == labels@.map_values(
                |s: String| s@,
            )),
            labels@.len() > 100 ==> r is None,
    {
        if labels.len() <= 100 {
            Some(CategoryMap { labels })
        } else {
            None
        }
    }

    /// How many labels the map holds.
    pub fn len(&self) -> (r: usize)
        ensures
            r == self@.len(),
            r <= 100,
    {
        proof {
            use_type_invariant(self);
        }
        self.labels.len()
    }

    /// The category id of the given label: the first position whose label
    /// equals the key.
    pub fn get(&self, key: &str) -> (r: Option<u32>)
        ensures
            match r {
                Some(c) => lookup(self@, key@) == Some(c as int) && (c as int) < self@.len()
                    && self@.len() <= 100,
                None => lookup(self@, key@) is None,
            },
    {
        proof {
            use_type_invariant(self);
        }
        let mut i: usize = 0;
        while i < self.labels.len()
            invariant
                i <= self.labels@.len(),
                self.labels@.len() <= 100,
                lookup(self@, key@) == lookup_from(self@, key@, i as int),
            decreases self.labels@.len() - i,
        {
            let same = str_eq(self.labels[i].as_str(), key);
            proof {
                assert(self@[i as int] == self.labels@[i as int]@);
            }
            if same {
                return Some(i as u32);
            }
            i += 1;
        }
        None
    }
}

/// The DFS positions for the NBA, in category-id order.
pub enum NBAPositions {
    PointGuard,
    ShootingGuard,
    SmallForward,
    PowerForward,
    Center,
    Guard,
    Forward,
    UTIL,
    Captain,
}

/// The NBA position labels, in category-id order.
pub open spec fn nba_labels() -> Seq<Seq<char>> {
    seq!["PG"@, "SG"@, "SF"@, "PF"@, "C"@, "G"@, "F"@, "UTIL"@, "CPT"@]
}

/// The MLB position labels, in category-id order.
pub open spec fn mlb_labels() -> Seq<Seq<char>> {
    seq!["P"@, "C"@, "1B"@, "2B"@, "3B"@, "SS"@, "OF"@, "CPT"@]
}

/// The NFL position labels, in category-id order.
pub open spec fn nfl_labels() -> Seq<Seq<char>> {
    seq!["QB"@, "RB"@, "WR"@, "TE"@, "FLEX"@, "DST"@, "CPT"@]
}

/// The labels `map_categories` resolves a sport name to, checked in the
/// same order and ignoring ASCII case.
pub open spec fn sport_labels(sport: Seq<char>) -> Option<Seq<Seq<char>>> {
    if eq_ic(sport, "nba"@) {
        Some(nba_labels())
    } else if eq_ic(sport, "mlb"@) {
        Some(mlb_labels())
    } else if eq_ic(sport, "nfl"@) {
        Some(nfl_labels())
    } else {
        None
    }
}

/// The label-to-category mapping for a sport, matched ignoring ASCII case;
/// `None` for an unknown sport.
pub fn map_categories(sport: &str) -> (r: Option<CategoryMap>)
    ensures
        eq_ic(sport@, "nba"@) ==> (r matches Some(m) && m@ == nba_labels()),
        !eq_ic(sport@, "nba"@) && eq_ic(sport@, "mlb"@) ==> (r matches Some(m) && m@
            == mlb_labels()),
        !eq_ic(sport@, "nba"@) && !eq_ic(sport@, "mlb"@) && eq_ic(sport@, "nfl"@) ==> (r matches
            Some(m) && m@ == nfl_labels()),
        !eq_ic(sport@, "nba"@) && !eq_ic(sport@, "mlb"@) && !eq_ic(sport@, "nfl"@) ==> r is None,
{
    if eq_ignore_ascii_case(sport, "nba") {
        let mut labels: Vec<String> = Vec::new();
        labels.push("PG".to_owned());
        labels.push("SG".to_owned());
        labels.push("SF".to_owned());
        labels.push("PF".to_owned());
        labels.push("C".to_owned());
        labels.push("G".to_owned());
        labels.push("F".to_owned());
        labels.push("UTIL".to_owned());
        labels.push("CPT".to_owned());
        proof {
            assert(labels@.map_values(|s: String| s@) =~= nba_labels());
        }
        CategoryMap::from_labels(labels)
    } else if eq_ignore_ascii_case(sport, "mlb") {
        let mut labels: Vec<String> = Vec::new();
        labels.push("P".to_owned());
        labels.push("C".to_owned());
        labels.push("1B".to_owned());
        labels.push("2B".to_owned());
        labels.push("3B".to_owned());
        labels.push("SS".to_owned());
        labels.push("OF".to_owned());
        labels.push("CPT".to_owned());
        proof {
            assert(labels@.map_values(|s: String| s@) =~= mlb_labels());
        }
        CategoryMap::from_labels(labels)
    } else if eq_ignore_ascii_case(sport, "nfl") {
        let mut labels: Vec<String> = Vec::new();
        labels.push("QB".to_owned());
        labels.push("RB".to_owned());
        labels.push("WR".to_owned());
        labels.push("TE".to_owned());
        labels.push("FLEX".to_owned());
        labels.push("DST".to_owned());
        labels.push("CPT".to_owned());
        proof {
            assert(labels@.map_values(|s: String| s@) =~= nfl_labels());
        }
        CategoryMap::from_labels(labels)
    } else {
        None
    }
}

/// The slash-separated tokens of a string. A string with no separator is one
/// token; every separator starts a new (possibly empty) token, so the result
/// is never empty.
pub open spec fn tokens(s: Seq<char>) -> Seq<Seq<char>>
    decreases s.len(),
{
    if s.len() == 0 {
        seq![Seq::<char>::empty()]
    } else if s[0] == '/' {
        seq![Seq::<char>::empty()] + tokens(s.drop_first())
    } else {
        let rest = tokens(s.drop_first());
        seq![seq![s[0]] + rest[0]] + rest.drop_first()
    }
}

/// A maximal slash-free run `[from, upto)` is the next token: the tokens of
/// the suffix starting at `from` are that run followed by the tokens after
/// the separator (or nothing, at the end of the string).
pub proof fn lemma_tokens_split(s: Seq<char>, from: int, upto: int)
    requires
        0 <= from <= upto <= s.len(),
        forall|j: int| from <= j < upto ==> s[j] != '/',
        upto == s.len() || s[upto] == '/',
    ensures
        tokens(s.subrange(from, s.len() as int)) == seq![s.subrange(from, upto)] + (if upto
            < s.len() {
            tokens(s.subrange(upto + 1, s.len() as int))
        } else {
            Seq::<Seq<char>>::empty()
        }),
    decreases upto - from,
{
    let suffix = s.subrange(from, s.len() as int);
    if from == upto {
        if upto == s.len() {
            assert(suffix =~= Seq::<char>::empty());
            assert(s.subrange(from, upto) =~= Seq::<char>::empty());
            assert(tokens(suffix) =~= seq![s.subrange(from, upto)] + Seq::<Seq<char>>::empty());
        } else {
            assert(suffix[0] == s[from]);
            assert(s[from] == '/');
            assert(suffix.drop_first() =~= s.subrange(upto + 1, s.len() as int));
            assert(s.subrange(from, upto) =~= Seq::<char>::empty());
        }
    } else {
        lemma_tokens_split(s, from + 1, upto);
        let rest = tokens(s.subrange(from + 1, s.len() as int));
        assert(suffix[0] == s[from]);
        assert(s[from] != '/');
        assert(suffix.drop_first() =~= s.subrange(from + 1, s.len() as int));
        assert(rest[0] == s.subrange(from + 1, upto));
        assert(seq![s[from]] + s.subrange(from + 1, upto) =~= s.subrange(from, upto));
        assert(tokens(suffix) =~= seq![s.subrange(from, upto)] + rest.drop_first());
        assert(rest.drop_first() =~= (if upto < s.len() {
            tokens(s.subrange(upto + 1, s.len() as int))
        } else {
            Seq::<Seq<char>>::empty()
        }));
    }
}

/// Drops repeated values, keeping first occurrences in order.
pub open spec fn dedup_ints(s: Seq<int>) -> Seq<int>
    decreases s.len(),
{
    if s.len() == 0 {
        Seq::empty()
    } else {
        let pre = dedup_ints(s.drop_last());
        if pre.contains(s.last()) {
            pre
        } else {
            pre.push(s.last())
        }
    }
}

/// The category value of each token.
pub open spec fn pos_values(ts: Seq<Seq<char>>) -> Seq<int> {
    ts.map_values(|t: Seq<char>| pos_value(t))
}

/// The category id named by one NBA position token; an unknown token maps to
/// `usize::MAX`.
pub open spec fn pos_value(t: Seq<char>) -> int {
    if t == "PG"@ {
        0
    } else if t == "SG"@ {
        1
    } else if t == "SF"@ {
        2
    } else if t == "PF"@ {
        3
    } else if t == "C"@ {
        4
    } else if t == "G"@ {
        5
    } else if t == "F"@ {
        6
    } else if t == "UTIL"@ {
        7
    } else if t == "CPT"@ {
        8
    } else {
        usize::MAX as int
    }
}

/// Resolves a textual position string into category ids.
pub trait CategoryMapper {
    /// The distinct category ids named by a (possibly slash-delimited)
    /// position string, in first-occurrence order.
    fn map(string: &str) -> Vec<usize>;
}

/// The NBA category mapper.
pub struct NBACategoryMapper {}

impl NBACategoryMapper {
    /// The category id of a single NBA position token.
    pub fn get_pos_value(string: &str) -> (r: usize)
        ensures
            r as int == pos_value(string@),
    {
        if str_eq(string, "PG") {
            0
        } else if str_eq(string, "SG") {
            1
        } else if str_eq(string, "SF") {
            2
        } else if str_eq(string, "PF") {
            3
        } else if str_eq(string, "C") {
            4
        } else if str_eq(string, "G") {
            5
        } else if str_eq(string, "F") {
            6
        } else if str_eq(string, "UTIL") {
            7
        } else if str_eq(string, "CPT") {
            8
        } else {
            usize::MAX
        }
    }

    /// Splits the string on `/`, resolves each token, and returns the
    /// distinct category ids in first-occurrence order.
    #[verifier::loop_isolation(false)]
    pub fn map(string: &str) -> (r: Vec<usize>)
        ensures
            r@.map_values(|x: usize| x as int) == dedup_ints(pos_values(tokens(string@))),
            forall|a: int, b: int| 0 <= a < b < r@.len() ==> r@[a] != r@[b],
    {
        let ghost ts = tokens(string@);
        let ghost vals = pos_values(ts);
        let len = string.unicode_len();
        let mut result: Vec<usize> = Vec::new();
        let mut start: usize = 0;
        let mut i: usize = 0;
        let ghost k: int = 0;
        proof {
            assert(string@.subrange(0, string@.len() as int) =~= string@);
            assert(ts.skip(0) =~= ts);
        }
        while i < len
            invariant
                0 <= start as int <= i as int <= len as int,
                len == string@.len(),
                ts == tokens(string@),
                vals == pos_values(ts),
                forall|j: int| start <= j < i ==> string@[j] != '/',
                0 <= k <= vals.len(),
                tokens(string@.subrange(start as int, len as int)) == ts.skip(k),
                result@.map_values(|x: usize| x as int) == dedup_ints(vals.take(k)),
                forall|a: int, b: int| 0 <= a < b < result@.len() ==> result@[a] != result@[b],
            decreases len - i,
        {
            if string.get_char(i) == '/' {
                let token = string.substring_char(start, i);
                let v = Self::get_pos_value(token);
                proof {
                    lemma_tokens_split(string@, start as int, i as int);
                    assert(ts.skip(k)[0] == string@.subrange(start as int, i as int));
                    assert(ts.skip(k)[0] == ts[k + 0]);
                    assert(ts[k] == token@);
                    assert(ts.skip(k).drop_first() =~= ts.skip(k + 1));
                    assert(vals.take(k + 1).drop_last() =~= vals.take(k));
                    assert(vals[k] == pos_value(ts[k]));
                    lemma_push_or_skip(result@, v, dedup_ints(vals.take(k)), vals[k]);
                }
                if !contains_usize(&result, v) {
                    result.push(v);
                }
                proof {
                    assert(result@.map_values(|x: usize| x as int) =~= dedup_ints(
                        vals.take(k + 1),
                    ));
                    assert forall|a: int, b: int|
                        0 <= a < b < result@.len() implies result@[a] != result@[b] by {
                        let mapped = result@.map_values(|x: usize| x as int);
                        assert(mapped[a] == result@[a] as int);
                        assert(mapped[b] == result@[b] as int);
                        lemma_dedup_distinct(vals.take(k + 1));
                    }
                }
                start = i + 1;
                proof {
                    k = k + 1;
                }
            }
            i += 1;
        }
        let token = string.substring_char(start, len);
        let v = Self::get_pos_value(token);
        proof {
            lemma_tokens_split(string@, start as int, len as int);
            assert(ts.skip(k) =~= seq![string@.subrange(start as int, len as int)]);
            assert(ts.skip(k)[0] == ts[k + 0]);
            assert(ts[k] == token@);
            assert(k + 1 == ts.len());
            assert(vals.take(k + 1) =~= vals);
            assert(vals.take(k + 1).drop_last() =~= vals.take(k));
            assert(vals[k] == pos_value(ts[k]));
            lemma_push_or_skip(result@, v, dedup_ints(vals.take(k)), vals[k]);
        }
        if !contains_usize(&result, v) {
            result.push(v);
        }
        proof {
            assert(result@.map_values(|x: usize| x as int) =~= dedup_ints(vals));
            assert forall|a: int, b: int|
                0 <= a < b < result@.len() implies result@[a] != result@[b] by {
                let mapped = result@.map_values(|x: usize| x as int);
                assert(mapped[a] == result@[a] as int);
                assert(mapped[b] == result@[b] as int);
                lemma_dedup_distinct(vals);
            }
        }
        result
    }
}

impl CategoryMapper for NBACategoryMapper {
    fn map(string: &str) -> Vec<usize> {
        NBACategoryMapper::map(string)
    }
}

/// Bridges the executable membership test with the specification's dedup
/// step: when the mapped result equals a dedup prefix, pushing a value whose
/// integer image is next keeps the correspondence.
proof fn lemma_push_or_skip(cur: Seq<usize>, v: usize, ded: Seq<int>, next: int)
    requires
        cur.map_values(|x: usize| x as int) == ded,
        v as int == next,
    ensures
        cur.contains(v) == ded.contains(next),
        !cur.contains(v) ==> cur.push(v).map_values(|x: usize| x as int) =~= ded.push(next),
{
    if cur.contains(v) {
        let w = choose|w: int| 0 <= w < cur.len() && cur[w] == v;
        assert(cur.map_values(|x: usize| x as int)[w] == v as int);
        assert(ded.contains(next));
    }
    if ded.contains(next) {
        let w = choose|w: int| 0 <= w < ded.len() && ded[w] == next;
        assert(cur.map_values(|x: usize| x as int)[w] == cur[w] as int);
        assert(cur[w] == v);
        assert(cur.contains(v));
    }
}

/// A deduplicated sequence has pairwise distinct entries.
proof fn lemma_dedup_distinct(s: Seq<int>)
    ensures
        forall|a: int, b: int|
            0 <= a < b < dedup_ints(s).len() ==> dedup_ints(s)[a] != dedup_ints(s)[b],
    decreases s.len(),
{
    if s.len() > 0 {
        lemma_dedup_distinct(s.drop_last());
        let pre = dedup_ints(s.drop_last());
        if !pre.contains(s.last()) {
            assert forall|a: int, b: int|
                0 <= a < b < dedup_ints(s).len() implies dedup_ints(s)[a] != dedup_ints(
                s,
            )[b] by {
                if b == dedup_ints(s).len() - 1 {
                    assert(dedup_ints(s)[a] == pre[a]);
                    assert(pre.contains(pre[a]));
                } else {
                    assert(dedup_ints(s)[a] == pre[a]);
                    assert(dedup_ints(s)[b] == pre[b]);
                }
            }
        }
    }
}

/// Whether `x` occurs in the list.
fn contains_usize(v: &Vec<usize>, x: usize) -> (r: bool)
    ensures
        r == v@.contains(x),
{
    let mut j: usize = 0;
    while j < v.len()
        invariant
            j <= v@.len(),
            forall|jj: int| 0 <= jj < j ==> v@[jj] != x,
        decreases v@.len() - j,
    {
        if v[j] == x {
            return true;
        }
        j += 1;
    }
    false
}

} // verus!
