//! Manpage lookup index.
//!
//! A bundle maps source paths to parsed manpages and lookup keys to scored
//! destination sources. Lookup: a name ending in `.gz` is a source path;
//! otherwise the key's mapped sources that exist are the candidates (with
//! one retry on the name cut at its last `.`), and they come out ordered by
//! score, highest first, ties in mapping order.

use vstd::prelude::*;
use vstd::hash_map::StringHashMap;
use crate::model::{ParsedManpage, aliases_view};
use crate::text::{push_decimal, push_str, str_chars, str_eq, string_from_chars, decimal_text};

verus! {

/// Current bundle schema version.
pub const BUNDLE_VERSION: u32 = 1;

/// Errors from data loading and lookup.
#[derive(Debug)]
pub enum DataError {
    /// The bundle could not be decoded (message of the decoder)
    Decode(String),
    /// Requested program has no manpage mapping
    ProgramNotFound(String),
}

/// How a data failure reads.
pub open spec fn data_error_text(e: DataError) -> Seq<char> {
    match e {
        DataError::Decode(m) => "failed to decode manpage data: "@ + m@,
        DataError::ProgramNotFound(p) => "no manpage found for program: "@ + p@,
    }
}

impl DataError {
    /// The failure as a sentence.
    pub fn message(&self) -> (r: String)
        ensures
            r@ == data_error_text(*self),
    {
        match self {
            DataError::Decode(m) => {
                let mut s = "failed to decode manpage data: ".to_owned();
                push_str(&mut s, m.as_str());
                s
            },
            DataError::ProgramNotFound(p) => {
                let mut s = "no manpage found for program: ".to_owned();
                push_str(&mut s, p.as_str());
                s
            },
        }
    }
}

/// Versioned container for the exported corpus.
pub struct DataBundle {
    /// Schema version of the bundle format
    pub version: u32,
    /// source path -> parsed manpage
    pub manpages: StringHashMap<ParsedManpage>,
    /// lookup key -> list of (destination source, score)
    pub mappings: StringHashMap<Vec<(String, i32)>>,
}

impl DataBundle {
    /// An empty bundle of the given version.
    pub fn new(version: u32) -> (r: DataBundle)
        ensures
            r.version == version,
            r.manpages@ == Map::<Seq<char>, ParsedManpage>::empty(),
            r.mappings@ == Map::<Seq<char>, Vec<(String, i32)>>::empty(),
    {
        DataBundle { version, manpages: StringHashMap::new(), mappings: StringHashMap::new() }
    }
}

/// In-memory manpage lookup index.
pub struct ManpageData {
    bundle: DataBundle,
}

// ---------------------------------------------------------------------
// Lookup model
// ---------------------------------------------------------------------

/// The mapped entries whose destination exists, in mapping order.
pub open spec fn existing_entries(
    entries: Seq<(Seq<char>, i32)>,
    pages: Map<Seq<char>, ParsedManpage>,
) -> Seq<(Seq<char>, i32)>
    decreases entries.len(),
{
    if entries.len() == 0 {
        Seq::empty()
    } else {
        let rest = existing_entries(entries.drop_last(), pages);
        if pages.contains_key(entries.last().0) {
            rest.push(entries.last())
        } else {
            rest
        }
    }
}

/// Candidates of one lookup key.
pub open spec fn key_candidates(
    pages: Map<Seq<char>, ParsedManpage>,
    maps: Map<Seq<char>, Vec<(String, i32)>>,
    key: Seq<char>,
) -> Seq<(Seq<char>, i32)> {
    if maps.contains_key(key) {
        existing_entries(aliases_view(maps[key]@), pages)
    } else {
        Seq::empty()
    }
}

/// Index of the last `.` of a name.
pub open spec fn last_dot(s: Seq<char>) -> Option<int>
    decreases s.len(),
{
    if s.len() == 0 {
        None
    } else if s.last() == '.' {
        Some(s.len() - 1)
    } else {
        last_dot(s.drop_last())
    }
}

/// Candidates of a program name: its own key, or when that gives none
/// (and the name is not "."), the name cut at its last `.`.
pub open spec fn name_candidates(
    pages: Map<Seq<char>, ParsedManpage>,
    maps: Map<Seq<char>, Vec<(String, i32)>>,
    name: Seq<char>,
) -> Seq<(Seq<char>, i32)> {
    let direct = key_candidates(pages, maps, name);
    if direct.len() == 0 && name != seq!['.'] {
        match last_dot(name) {
            Some(i) => key_candidates(pages, maps, name.take(i)),
            None => direct,
        }
    } else {
        direct
    }
}

/// `s` with `x` placed after every element scored at least as high.
pub open spec fn insert_by_score<A>(s: Seq<(A, i32)>, x: (A, i32)) -> Seq<(A, i32)>
    decreases s.len(),
{
    if s.len() == 0 {
        seq![x]
    } else if s.last().1 >= x.1 {
        s.push(x)
    } else {
        insert_by_score(s.drop_last(), x).push(s.last())
    }
}

/// Stable sort by score, highest first.
pub open spec fn sort_by_score<A>(s: Seq<(A, i32)>) -> Seq<(A, i32)>
    decreases s.len(),
{
    if s.len() == 0 {
        s
    } else {
        insert_by_score(sort_by_score(s.drop_last()), s.last())
    }
}

/// Scores never increase along the sequence.
pub open spec fn scores_descending<A>(s: Seq<(A, i32)>) -> bool {
    forall|i: int, j: int| 0 <= i < j < s.len() ==> s[i].1 >= s[j].1
}

/// The name ends with `suffix`.
pub open spec fn ends_with(s: Seq<char>, suffix: Seq<char>) -> bool {
    s.len() >= suffix.len() && s.subrange(s.len() - suffix.len(), s.len() as int) == suffix
}

// ---------------------------------------------------------------------
// Laws of the ordering
// ---------------------------------------------------------------------

proof fn lemma_insert_at<A>(s: Seq<(A, i32)>, x: (A, i32), j: int)
    requires
        0 <= j <= s.len(),
        j == 0 || s[j - 1].1 >= x.1,
        forall|k: int| j <= k < s.len() ==> s[k].1 < x.1,
    ensures
        insert_by_score(s, x) == s.insert(j, x),
    decreases s.len(),
{
    if s.len() == 0 {
        assert(s.insert(j, x) =~= seq![x]);
    } else if s.last().1 >= x.1 {
        assert(j == s.len());
        assert(s.insert(j, x) =~= s.push(x));
    } else {
        lemma_insert_at(s.drop_last(), x, j);
        assert(s.drop_last().insert(j, x).push(s.last()) =~= s.insert(j, x));
    }
}

proof fn lemma_insert_sorted<A>(s: Seq<(A, i32)>, x: (A, i32))
    requires
        scores_descending(s),
    ensures
        scores_descending(insert_by_score(s, x)),
        insert_by_score(s, x).len() == s.len() + 1,
        insert_by_score(s, x).to_multiset() == s.to_multiset().insert(x),
    decreases s.len(),
{
    broadcast use vstd::seq_lib::group_seq_properties;

    if s.len() == 0 {
        assert(seq![x] =~= Seq::<(A, i32)>::empty().push(x));
    } else if s.last().1 >= x.1 {
    } else {
        let r = insert_by_score(s.drop_last(), x);
        lemma_insert_sorted(s.drop_last(), x);
        assert forall|i: int, j: int| 0 <= i < j < r.push(s.last()).len() implies r.push(
            s.last(),
        )[i].1 >= r.push(s.last())[j].1 by {
            if j == r.len() {
                assert(r.to_multiset().contains(r[i]));
                assert(s.drop_last().to_multiset().insert(x).contains(r[i]));
                if r[i] != x {
                    assert(s.drop_last().to_multiset().contains(r[i]));
                    assert(s.drop_last().contains(r[i]));
                    let k = choose|k: int| 0 <= k < s.drop_last().len() && s.drop_last()[k] == r[i];
                    assert(s[k] == r[i]);
                }
            }
        }
        assert(s.drop_last().push(s.last()) =~= s);
    }
}

/// Law: the candidates come out with scores never increasing, and they
/// are exactly the candidates that went in.
pub proof fn lemma_sort_by_score<A>(s: Seq<(A, i32)>)
    ensures
        scores_descending(sort_by_score(s)),
        sort_by_score(s).len() == s.len(),
        sort_by_score(s).to_multiset() == s.to_multiset(),
    decreases s.len(),
{
    broadcast use vstd::seq_lib::group_seq_properties;

    if s.len() > 0 {
        lemma_sort_by_score(s.drop_last());
        lemma_insert_sorted(sort_by_score(s.drop_last()), s.last());
        assert(s.drop_last().push(s.last()) =~= s);
    }
}

/// The entries of `s` scored `k`, in order.
pub open spec fn with_score<A>(s: Seq<(A, i32)>, k: i32) -> Seq<(A, i32)>
    decreases s.len(),
{
    if s.len() == 0 {
        s
    } else {
        let rest = with_score(s.drop_last(), k);
        if s.last().1 == k {
            rest.push(s.last())
        } else {
            rest
        }
    }
}

proof fn lemma_insert_with_score<A>(t: Seq<(A, i32)>, x: (A, i32), k: i32)
    ensures
        with_score(insert_by_score(t, x), k) == if x.1 == k {
            with_score(t, k).push(x)
        } else {
            with_score(t, k)
        },
    decreases t.len(),
{
    if t.len() == 0 {
        assert(seq![x].drop_last() =~= t);
    } else if t.last().1 >= x.1 {
        assert(t.push(x).drop_last() =~= t);
    } else {
        let r = insert_by_score(t.drop_last(), x);
        lemma_insert_with_score(t.drop_last(), x, k);
        assert(r.push(t.last()).drop_last() =~= r);
    }
}

/// Law: the order is stable; among candidates of equal score, mapping
/// order is kept.
pub proof fn lemma_sort_stable<A>(s: Seq<(A, i32)>, k: i32)
    ensures
        with_score(sort_by_score(s), k) == with_score(s, k),
    decreases s.len(),
{
    if s.len() > 0 {
        lemma_sort_stable(s.drop_last(), k);
        lemma_insert_with_score(sort_by_score(s.drop_last()), s.last(), k);
    }
}

// ---------------------------------------------------------------------
// Executable lookup
// ---------------------------------------------------------------------

/// Stable sort of scored entries, highest score first.
fn sort_entries(v: Vec<(String, i32)>) -> (r: Vec<(String, i32)>)
    ensures
        aliases_view(r@) == sort_by_score(aliases_view(v@)),
{
    let ghost sv = aliases_view(v@);
    let mut out: Vec<(String, i32)> = Vec::new();
    let mut rest = v;
    // Take entries from the front, in order.
    let mut taken: Vec<(String, i32)> = Vec::new();
    while rest.len() > 0
        invariant
            aliases_view(taken@) + aliases_view(rest@) == sv,
            aliases_view(out@) == sort_by_score(aliases_view(taken@)),
        decreases rest@.len(),
    {
        let ghost t0 = aliases_view(taken@);
        let ghost r0 = aliases_view(rest@);
        let x = rest.remove(0);
        let score = x.1;
        let mut j = out.len();
        while j > 0 && out[j - 1].1 < score
            invariant
                j <= out@.len(),
                forall|k: int| j <= k < out@.len() ==> out@[k].1 < score,
            decreases j,
        {
            j -= 1;
        }
        let ghost o0 = aliases_view(out@);
        let ghost xv = (x.0@, x.1);
        proof {
            assert(r0 == seq![xv] + aliases_view(rest@)) by {
                assert(r0 =~= seq![xv] + aliases_view(rest@));
            }
            lemma_insert_at(o0, xv, j as int);
        }
        out.insert(j, (x.0.clone(), x.1));
        taken.push(x);
        proof {
            assert(aliases_view(out@) =~= o0.insert(j as int, xv));
            assert(aliases_view(taken@) =~= t0.push(xv));
            assert(aliases_view(taken@).drop_last() =~= t0);
            assert(aliases_view(taken@) + aliases_view(rest@) =~= t0 + r0);
        }
    }
    proof {
        assert(aliases_view(taken@) =~= sv);
    }
    out
}

/// The existing destinations of a mapping list, in order.
fn existing(pages: &StringHashMap<ParsedManpage>, entries: &Vec<(String, i32)>) -> (r: Vec<
    (String, i32),
>)
    ensures
        aliases_view(r@) == existing_entries(aliases_view(entries@), pages@),
{
    let ghost ev = aliases_view(entries@);
    let mut out: Vec<(String, i32)> = Vec::new();
    let mut i: usize = 0;
    while i < entries.len()
        invariant
            i <= entries@.len(),
            ev == aliases_view(entries@),
            aliases_view(out@) == existing_entries(ev.take(i as int), pages@),
        decreases entries@.len() - i,
    {
        let (dst, score) = &entries[i];
        proof {
            assert(ev.take(i + 1).drop_last() =~= ev.take(i as int));
            assert(ev.take(i + 1).last() == (dst@, *score));
        }
        if pages.contains_key(dst.as_str()) {
            let ghost before = aliases_view(out@);
            out.push((dst.clone(), *score));
            proof {
                assert(aliases_view(out@) =~= before.push((dst@, *score)));
            }
        }
        i += 1;
    }
    proof {
        assert(ev.take(entries@.len() as int) =~= ev);
    }
    out
}

/// The name ends with ".gz".
fn ends_with_gz(name: &str) -> (r: bool)
    ensures
        r == ends_with(name@, ".gz"@),
{
    proof {
        reveal_strlit(".gz");
    }
    let cs = str_chars(name);
    let n = cs.len();
    if n < 3 {
        return false;
    }
    let r = cs[n - 3] == '.' && cs[n - 2] == 'g' && cs[n - 1] == 'z';
    proof {
        let tail = name@.subrange(n - 3, n as int);
        if r {
            assert(tail =~= ".gz"@);
        } else {
            assert(tail[0] != '.' || tail[1] != 'g' || tail[2] != 'z');
        }
    }
    r
}

/// The name up to its last `.`, when it has one.
fn before_last_dot(name: &str) -> (r: Option<String>)
    ensures
        match last_dot(name@) {
            Some(i) => r matches Some(h) && h@ == name@.take(i),
            None => r is None,
        },
{
    let cs = str_chars(name);
    let mut j = cs.len();
    proof {
        assert(cs@.take(j as int) =~= cs@);
    }
    while j > 0 && cs[j - 1] != '.'
        invariant
            j <= cs@.len(),
            cs@ == name@,
            last_dot(name@) == last_dot(cs@.take(j as int)),
        decreases j,
    {
        proof {
            assert(cs@.take(j as int).drop_last() =~= cs@.take(j - 1));
        }
        j -= 1;
    }
    if j == 0 {
        proof {
            assert(cs@.take(0) =~= Seq::<char>::empty());
        }
        None
    } else {
        Some(string_from_chars(&cs, 0, j - 1))
    }
}

impl ManpageData {
    /// The manpages, keyed by source path.
    pub closed spec fn pages(&self) -> Map<Seq<char>, ParsedManpage> {
        self.bundle.manpages@
    }

    /// The lookup mappings.
    pub closed spec fn maps(&self) -> Map<Seq<char>, Vec<(String, i32)>> {
        self.bundle.mappings@
    }

    /// Wrap a decoded bundle; a bundle of another schema version is refused.
    pub fn from_bundle(bundle: DataBundle) -> (r: Result<ManpageData, DataError>)
        ensures
            bundle.version == BUNDLE_VERSION <==> r is Ok,
            r matches Ok(d) ==> d.pages() == bundle.manpages@ && d.maps() == bundle.mappings@,
            r matches Err(e) ==> e matches DataError::Decode(m) && m@ == "unsupported bundle version "@
                + decimal_text(bundle.version as nat) + ", expected "@ + decimal_text(
                BUNDLE_VERSION as nat,
            ),
    {
        if bundle.version != BUNDLE_VERSION {
            let mut m = String::new();
            push_str(&mut m, "unsupported bundle version ");
            push_decimal(&mut m, bundle.version as u64);
            push_str(&mut m, ", expected ");
            push_decimal(&mut m, BUNDLE_VERSION as u64);
            return Err(DataError::Decode(m));
        }
        Ok(ManpageData { bundle })
    }

    /// Number of manpages in the bundle.
    pub fn manpage_count(&self) -> (r: usize)
        ensures
            r == self.pages().len(),
    {
        self.bundle.manpages.len()
    }

    /// The scored candidates of one key.
    fn key_entries(&self, key: &str) -> (r: Vec<(String, i32)>)
        ensures
            aliases_view(r@) == key_candidates(self.pages(), self.maps(), key@),
    {
        match self.bundle.mappings.get(key) {
            Some(list) => existing(&self.bundle.manpages, list),
            None => Vec::new(),
        }
    }

    /// Find the best manpage for a command name, with the remaining
    /// candidates as suggestions (highest score first).
    pub fn find_man_page(&self, name: &str) -> (r: Result<
        (&ParsedManpage, Vec<&ParsedManpage>),
        DataError,
    >)
        ensures
            ends_with(name@, ".gz"@) ==> match r {
                Ok((top, sugg)) => self.pages().contains_key(name@) && *top == self.pages()[name@]
                    && sugg@.len() == 0,
                Err(e) => !self.pages().contains_key(name@) && (e matches DataError::ProgramNotFound(
                    n,
                ) && n@ == name@),
            },
            !ends_with(name@, ".gz"@) ==> ({
                let sorted = sort_by_score(name_candidates(self.pages(), self.maps(), name@));
                match r {
                    Ok((top, sugg)) => sorted.len() > 0 && self.pages().contains_key(sorted[0].0)
                        && *top == self.pages()[sorted[0].0] && sugg@.len() == sorted.len() - 1
                        && forall|i: int|
                        0 <= i < sugg@.len() ==> self.pages().contains_key(sorted[i + 1].0)
                            && *(#[trigger] sugg@[i]) == self.pages()[sorted[i + 1].0],
                    Err(e) => sorted.len() == 0 && (e matches DataError::ProgramNotFound(n)
                        && n@ == name@),
                }
            }),
    {
        if ends_with_gz(name) {
            return match self.bundle.manpages.get(name) {
                Some(m) => Ok((m, Vec::new())),
                None => Err(DataError::ProgramNotFound(name.to_owned())),
            };
        }
        let mut candidates = self.key_entries(name);
        proof {
            reveal_strlit(".");
            assert("."@ =~= seq!['.']);
        }
        if candidates.len() == 0 && !str_eq(name, ".") {
            match before_last_dot(name) {
                Some(head) => {
                    candidates = self.key_entries(head.as_str());
                },
                None => {},
            }
        }
        let ghost cands = aliases_view(candidates@);
        assert(cands == name_candidates(self.pages(), self.maps(), name@));
        if candidates.len() == 0 {
            proof {
                assert(sort_by_score(cands).len() == 0);
            }
            return Err(DataError::ProgramNotFound(name.to_owned()));
        }
        let sorted = sort_entries(candidates);
        proof {
            lemma_sort_by_score(cands);
            assert forall|k: int| 0 <= k < sorted@.len() implies self.pages().contains_key(
                #[trigger] aliases_view(sorted@)[k].0,
            ) by {
                lemma_existing_in_pages(self.pages(), self.maps(), name@, aliases_view(sorted@)[k]);
            }
        }
        let top = match self.bundle.manpages.get(sorted[0].0.as_str()) {
            Some(m) => m,
            None => {
                proof {
                    assert(aliases_view(sorted@)[0].0 == sorted@[0].0@);
                }
                return Err(DataError::ProgramNotFound(name.to_owned()));
            },
        };
        let mut suggestions: Vec<&ParsedManpage> = Vec::new();
        let mut i: usize = 1;
        while i < sorted.len()
            invariant
                1 <= i <= sorted@.len(),
                suggestions@.len() == i - 1,
                forall|k: int| 0 <= k < sorted@.len() ==> self.pages().contains_key(
                    #[trigger] aliases_view(sorted@)[k].0,
                ),
                forall|k: int|
                    0 <= k < suggestions@.len() ==> *(#[trigger] suggestions@[k]) == self.pages()[aliases_view(
                        sorted@,
                    )[k + 1].0],
            decreases sorted@.len() - i,
        {
            proof {
                assert(aliases_view(sorted@)[i as int].0 == sorted@[i as int].0@);
            }
            match self.bundle.manpages.get(sorted[i].0.as_str()) {
                Some(m) => suggestions.push(m),
                None => {
                    return Err(DataError::ProgramNotFound(name.to_owned()));
                },
            }
            i += 1;
        }
        Ok((top, suggestions))
    }
}

/// Every candidate of a name names an existing manpage.
proof fn lemma_existing_in_pages(
    pages: Map<Seq<char>, ParsedManpage>,
    maps: Map<Seq<char>, Vec<(String, i32)>>,
    name: Seq<char>,
    e: (Seq<char>, i32),
)
    requires
        sort_by_score(name_candidates(pages, maps, name)).contains(e),
    ensures
        pages.contains_key(e.0),
{
    let c = name_candidates(pages, maps, name);
    lemma_sort_by_score(c);
    assert(sort_by_score(c).to_multiset().count(e) > 0) by {
        broadcast use vstd::seq_lib::group_seq_properties;
    }
    assert(c.contains(e)) by {
        broadcast use vstd::seq_lib::group_seq_properties;
    }
    assert forall|entries: Seq<(Seq<char>, i32)>| #[trigger] existing_entries(entries, pages).contains(e)
        implies pages.contains_key(e.0) by {
        lemma_existing_sound(entries, pages, e);
    }
}

proof fn lemma_existing_sound(
    entries: Seq<(Seq<char>, i32)>,
    pages: Map<Seq<char>, ParsedManpage>,
    e: (Seq<char>, i32),
)
    requires
        existing_entries(entries, pages).contains(e),
    ensures
        pages.contains_key(e.0),
    decreases entries.len(),
{
    if entries.len() > 0 {
        let rest = existing_entries(entries.drop_last(), pages);
        if pages.contains_key(entries.last().0) && e == entries.last() {
        } else if pages.contains_key(entries.last().0) {
            let k = choose|k: int| 0 <= k < rest.push(entries.last()).len() && rest.push(entries.last())[k] == e;
            assert(rest[k] == e);
            lemma_existing_sound(entries.drop_last(), pages, e);
        } else {
            lemma_existing_sound(entries.drop_last(), pages, e);
        }
    }
}

} // verus!
