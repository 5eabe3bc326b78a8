//! The audio candidate resolver: deduplication of audio locators, scratch
//! file naming, and the deterministic selection of at most one downloaded
//! candidate for playback.

use vstd::prelude::*;

use crate::entry::{entry_urls, phonetic_urls, Word};

verus! {

/// Whether `s` ends with `suffix`.
pub open spec fn ends_with_spec(s: Seq<char>, suffix: Seq<char>) -> bool {
    s.len() >= suffix.len() && s.subrange(s.len() - suffix.len(), s.len() as int) == suffix
}

/// Whether `s` ends with `suffix`.
pub fn str_ends_with(s: &str, suffix: &str) -> (r: bool)
    ensures
        r == ends_with_spec(s@, suffix@),
{
    let n: usize = s.unicode_len();
    let m: usize = suffix.unicode_len();
    if n < m {
        assert(!ends_with_spec(s@, suffix@));
        return false;
    }
    let mut k: usize = 0;
    while k < m
        invariant
            m <= n,
            n == s@.len(),
            m == suffix@.len(),
            k <= m,
            forall|j: int| 0 <= j < k ==> s@[n - m + j] == suffix@[j],
        decreases m - k,
    {
        if s.get_char(n - m + k) != suffix.get_char(k) {
            assert(s@.subrange(n - m, n as int)[k as int] != suffix@[k as int]);
            return false;
        }
        k = k + 1;
    }
    assert(s@.subrange(n - m, n as int) =~= suffix@);
    true
}

/// The position just after the last `'/'` of `url`, or `0` when `url` holds
/// no `'/'` at all.  The scratch file name of a download starts here.
pub open spec fn last_slash_end(url: Seq<char>) -> int
    decreases url.len(),
{
    if url.len() == 0 {
        0
    } else if url.last() == '/' {
        url.len() as int
    } else {
        last_slash_end(url.drop_last())
    }
}

/// The scratch file name derived from a locator: its trailing path segment,
/// that is everything after the last `'/'` (the whole locator when it holds
/// none, empty when it ends with one).
pub open spec fn file_name_spec(url: Seq<char>) -> Seq<char> {
    url.subrange(last_slash_end(url), url.len() as int)
}

/// `last_slash_end` marks a position that lies in the locator, sits right
/// after a `'/'` unless it is `0`, and is followed by no further `'/'`.
pub proof fn lemma_last_slash_end_is_cut(url: Seq<char>)
    ensures
        0 <= last_slash_end(url) <= url.len(),
        last_slash_end(url) > 0 ==> url[last_slash_end(url) - 1] == '/',
        forall|j: int| last_slash_end(url) <= j < url.len() ==> url[j] != '/',
    decreases url.len(),
{
    if url.len() > 0 && url.last() != '/' {
        let d = url.drop_last();
        lemma_last_slash_end_is_cut(d);
        assert forall|j: int| last_slash_end(url) <= j < url.len() implies url[j] != '/' by {
            if j < d.len() {
                assert(d[j] != '/');
            }
        }
    }
}

/// Extending a locator by one character moves the cut to just after that
/// character when it is a `'/'`, and leaves it in place otherwise.
proof fn lemma_last_slash_end_step(url: Seq<char>, j: int)
    requires
        0 <= j < url.len(),
    ensures
        last_slash_end(url.take(j + 1)) == if url[j] == '/' {
            j + 1
        } else {
            last_slash_end(url.take(j))
        },
{
    let t = url.take(j + 1);
    assert(t.last() == url[j]);
    assert(t.drop_last() =~= url.take(j));
}

/// The scratch file name of a locator: its trailing path segment.
pub fn file_name_of(url: &str) -> (r: String)
    ensures
        r@ == file_name_spec(url@),
{
    let n: usize = url.unicode_len();
    let mut cut: usize = 0;
    let mut j: usize = 0;
    while j < n
        invariant
            j <= n,
            cut <= j,
            n == url@.len(),
            cut == last_slash_end(url@.take(j as int)),
        decreases n - j,
    {
        proof {
            lemma_last_slash_end_step(url@, j as int);
        }
        if url.get_char(j) == '/' {
            cut = j + 1;
        }
        j = j + 1;
    }
    proof {
        assert(url@.take(n as int) =~= url@);
    }
    let name = url.substring_char(cut, n);
    name.to_owned()
}

/// `s` with every repeated element removed, keeping the first occurrence of
/// each and the order of those first occurrences.
pub open spec fn dedup(s: Seq<Seq<char>>) -> Seq<Seq<char>>
    decreases s.len(),
{
    if s.len() == 0 {
        Seq::empty()
    } else if s.drop_last().contains(s.last()) {
        dedup(s.drop_last())
    } else {
        dedup(s.drop_last()).push(s.last())
    }
}

/// Deduplication keeps exactly the elements of its input: nothing is lost
/// and nothing is invented.
pub proof fn lemma_dedup_members(s: Seq<Seq<char>>, x: Seq<char>)
    ensures
        dedup(s).contains(x) <==> s.contains(x),
    decreases s.len(),
{
    if s.len() > 0 {
        let d = s.drop_last();
        lemma_dedup_members(d, x);
        assert(s.contains(x) <==> d.contains(x) || s.last() == x) by {
            if s.contains(x) {
                let i = choose|i: int| 0 <= i < s.len() && s[i] == x;
                if i < d.len() {
                    assert(d[i] == x);
                }
            }
            if d.contains(x) {
                let i = choose|i: int| 0 <= i < d.len() && d[i] == x;
                assert(s[i] == x);
            }
            if s.last() == x {
                assert(s[s.len() - 1] == x);
            }
        }
        if !d.contains(s.last()) {
            let p = dedup(d).push(s.last());
            assert(p.contains(x) <==> dedup(d).contains(x) || s.last() == x) by {
                if p.contains(x) {
                    let i = choose|i: int| 0 <= i < p.len() && p[i] == x;
                    if i < dedup(d).len() {
                        assert(dedup(d)[i] == x);
                    }
                }
                if dedup(d).contains(x) {
                    let i = choose|i: int| 0 <= i < dedup(d).len() && dedup(d)[i] == x;
                    assert(p[i] == x);
                }
                if s.last() == x {
                    assert(p[p.len() - 1] == x);
                }
            }
        }
    }
}

/// A deduplicated list of locators carries no locator twice: one download
/// is issued per distinct locator, never two.
pub proof fn lemma_dedup_distinct(s: Seq<Seq<char>>)
    ensures
        forall|i: int, j: int| 0 <= i < j < dedup(s).len() ==> dedup(s)[i] != dedup(s)[j],
    decreases s.len(),
{
    if s.len() > 0 {
        let d = s.drop_last();
        lemma_dedup_distinct(d);
        if !d.contains(s.last()) {
            lemma_dedup_members(d, s.last());
            let p = dedup(d).push(s.last());
            assert forall|i: int, j: int| 0 <= i < j < p.len() implies p[i] != p[j] by {
                if j < dedup(d).len() {
                    assert(dedup(d)[i] != dedup(d)[j]);
                } else {
                    assert(p[j] == s.last());
                    assert(p[i] == dedup(d)[i]);
                    assert(dedup(d).contains(p[i]));
                }
            }
        }
    }
}

/// Whether some element of `urls` views to the same characters as `x`.
fn contains_url(urls: &Vec<String>, x: &String) -> (r: bool)
    ensures
        r == urls@.map_values(|s: String| s@).contains(x@),
{
    let ghost views = urls@.map_values(|s: String| s@);
    let mut k: usize = 0;
    while k < urls.len()
        invariant
            k <= urls@.len(),
            views == urls@.map_values(|s: String| s@),
            forall|i: int| 0 <= i < k ==> views[i] != x@,
        decreases urls@.len() - k,
    {
        if urls[k] == *x {
            assert(views[k as int] == x@);
            return true;
        }
        k = k + 1;
    }
    assert(forall|i: int| 0 <= i < views.len() ==> views[i] != x@);
    false
}

/// Remove repeated locators, keeping the first occurrence of each in order.
/// The result is `dedup` of the input, so it lists each distinct locator of
/// `urls` exactly once.
pub fn dedup_urls(urls: &Vec<String>) -> (r: Vec<String>)
    ensures
        r@.map_values(|s: String| s@) == dedup(urls@.map_values(|s: String| s@)),
{
    let ghost all = urls@.map_values(|s: String| s@);
    let mut r: Vec<String> = Vec::new();
    let mut i: usize = 0;
    while i < urls.len()
        invariant
            i <= urls@.len(),
            all == urls@.map_values(|s: String| s@),
            r@.map_values(|s: String| s@) == dedup(all.take(i as int)),
        decreases urls@.len() - i,
    {
        let ghost t = all.take(i + 1);
        proof {
            assert(t.last() == all[i as int]);
            assert(t.drop_last() =~= all.take(i as int));
            lemma_dedup_members(all.take(i as int), all[i as int]);
        }
        if !contains_url(&r, &urls[i]) {
            let u = urls[i].clone();
            r.push(u);
            proof {
                assert(r@.map_values(|s: String| s@) =~= dedup(all.take(i as int)).push(
                    all[i as int],
                ));
            }
        }
        i = i + 1;
    }
    proof {
        assert(all.take(urls@.len() as int) =~= all);
    }
    r
}

/// Every audio locator of the entry list, record by record and variant by
/// variant, duplicates included.
fn all_audio_urls(words: &Vec<Word>) -> (r: Vec<String>)
    ensures
        r@.map_values(|s: String| s@) == entry_urls(words@),
{
    let mut r: Vec<String> = Vec::new();
    let mut i: usize = 0;
    while i < words.len()
        invariant
            i <= words@.len(),
            r@.map_values(|s: String| s@) == entry_urls(words@.take(i as int)),
        decreases words@.len() - i,
    {
        let ghost ph = words@[i as int].phonetics@;
        let ghost audio_of = |p: crate::entry::Phonetic| p.audio@;
        let mut j: usize = 0;
        while j < words[i].phonetics.len()
            invariant
                i < words@.len(),
                j <= ph.len(),
                ph == words@[i as int].phonetics@,
                audio_of == (|p: crate::entry::Phonetic| p.audio@),
                r@.map_values(|s: String| s@) == entry_urls(words@.take(i as int)) + ph.take(
                    j as int,
                ).map_values(audio_of),
            decreases ph.len() - j,
        {
            let ghost before = r@.map_values(|s: String| s@);
            let a = words[i].phonetics[j].audio.clone();
            r.push(a);
            proof {
                ph.lemma_map_take_succ(audio_of, j as int);
                assert(r@.map_values(|s: String| s@) =~= before.push(ph[j as int].audio@));
                assert(entry_urls(words@.take(i as int)) + ph.take(j + 1).map_values(audio_of)
                    =~= before.push(ph[j as int].audio@));
            }
            j = j + 1;
        }
        proof {
            assert(ph.take(ph.len() as int) =~= ph);
            assert(ph.map_values(audio_of) == phonetic_urls(words@[i as int]));
            words@.lemma_flat_map_take_append(|w: Word| phonetic_urls(w), i as int);
            assert(entry_urls(words@.take(i as int)) + phonetic_urls(words@[i as int])
                =~= entry_urls(words@.take(i + 1)));
        }
        i = i + 1;
    }
    proof {
        assert(words@.take(words@.len() as int) =~= words@);
    }
    r
}

/// The download plan of an entry list: its distinct audio locators, first
/// occurrences first.  The resolver issues exactly one download per element
/// of this list.
pub fn collect_audio_urls(words: &Vec<Word>) -> (r: Vec<String>)
    ensures
        r@.map_values(|s: String| s@) == dedup(entry_urls(words@)),
{
    let all = all_audio_urls(words);
    dedup_urls(&all)
}

/// Why one download produced no playable bytes.  Failures of this kind are
/// contained: they shrink the candidate pool and nothing else.
pub enum DownloadError {
    /// The remote fetch was unreachable or answered with a failure status.
    Network,
    /// The scratch file could not be created or written.
    Io,
}

/// One locator together with the outcome of its download attempt.
pub struct DownloadOutcome {
    /// The audio locator this download was issued for.
    pub url: String,
    /// `Ok` when the locator's bytes reached the scratch file.
    pub result: Result<(), DownloadError>,
}

/// The regional-accent marker a playable candidate must end with.
pub open spec fn preferred_suffix() -> Seq<char> {
    "us.mp3"@
}

/// The preferred marker written out character by character; it holds no
/// `'/'`, so it can only fall inside a locator's trailing path segment.
proof fn lemma_preferred_suffix_chars()
    ensures
        preferred_suffix() == seq!['u', 's', '.', 'm', 'p', '3'],
        forall|j: int| 0 <= j < preferred_suffix().len() ==> preferred_suffix()[j] != '/',
{
    reveal_strlit("us.mp3");
    assert(preferred_suffix() =~= seq!['u', 's', '.', 'm', 'p', '3']);
    assert forall|j: int| 0 <= j < preferred_suffix().len() implies preferred_suffix()[j] != '/' by {
        if j == 0 {
        } else if j == 1 {
        } else if j == 2 {
        } else if j == 3 {
        } else if j == 4 {
        } else {
            assert(j == 5);
        }
    }
}

/// For a marker that holds no `'/'`, a locator's trailing path segment ends
/// with the marker exactly when the whole locator does.
pub proof fn lemma_name_suffix_iff_url_suffix(url: Seq<char>, s: Seq<char>)
    requires
        forall|j: int| 0 <= j < s.len() ==> s[j] != '/',
    ensures
        ends_with_spec(file_name_spec(url), s) == ends_with_spec(url, s),
{
    let e = last_slash_end(url);
    let n = url.len() as int;
    let m = s.len() as int;
    lemma_last_slash_end_is_cut(url);
    let name = file_name_spec(url);
    assert(name.len() == n - e);
    if ends_with_spec(name, s) {
        assert(n - e >= m);
        assert(url.subrange(n - m, n) =~= s) by {
            assert forall|k: int| 0 <= k < m implies url.subrange(n - m, n)[k] == s[k] by {
                assert(s[k] == name.subrange(name.len() - m, name.len() as int)[k]);
                assert(name[(n - e) - m + k] == url[n - m + k]);
            }
        }
    }
    if ends_with_spec(url, s) {
        assert(e <= n - m) by {
            if e > n - m {
                assert(e > 0);
                assert(url[e - 1] == '/');
                assert(url.subrange(n - m, n)[e - 1 - (n - m)] == url[e - 1]);
                assert(s[e - 1 - (n - m)] == '/');
            }
        }
        assert(name.subrange(name.len() - m, name.len() as int) =~= s) by {
            assert forall|k: int| 0 <= k < m implies name.subrange(
                name.len() - m,
                name.len() as int,
            )[k] == s[k] by {
                assert(name[(n - e) - m + k] == url[n - m + k]);
                assert(url.subrange(n - m, n)[k] == s[k]);
            }
        }
    }
}

/// A candidate is playable and preferred when its download succeeded and
/// its locator ends with the preferred regional-accent marker.
pub open spec fn is_preferred(o: DownloadOutcome) -> bool {
    o.result is Ok && ends_with_spec(o.url@, preferred_suffix())
}

/// The winning position among the outcomes: the first one, in the order the
/// downloads were planned, that is preferred; `None` when no outcome is.
pub open spec fn selected(outcomes: Seq<DownloadOutcome>) -> Option<int>
    decreases outcomes.len(),
{
    if outcomes.len() == 0 {
        None
    } else if is_preferred(outcomes[0]) {
        Some(0int)
    } else {
        match selected(outcomes.subrange(1, outcomes.len() as int)) {
            None => None,
            Some(i) => Some(i + 1),
        }
    }
}

/// Whether `r` points at the first preferred outcome, and at nothing when
/// no outcome is preferred.
pub open spec fn is_first_preferred(outcomes: Seq<DownloadOutcome>, r: Option<int>) -> bool {
    match r {
        Some(i) => 0 <= i < outcomes.len() && is_preferred(outcomes[i]) && (forall|j: int|
            0 <= j < i ==> !is_preferred(outcomes[j])),
        None => forall|j: int| 0 <= j < outcomes.len() ==> !is_preferred(outcomes[j]),
    }
}

/// `selected` picks exactly the first preferred outcome.
pub proof fn lemma_selected_is_first_preferred(outcomes: Seq<DownloadOutcome>)
    ensures
        is_first_preferred(outcomes, selected(outcomes)),
    decreases outcomes.len(),
{
    if outcomes.len() > 0 && !is_preferred(outcomes[0]) {
        let rest = outcomes.subrange(1, outcomes.len() as int);
        lemma_selected_is_first_preferred(rest);
        assert(forall|j: int| 0 <= j < rest.len() ==> rest[j] == outcomes[j + 1]);
        match selected(rest) {
            None => {
                assert forall|j: int| 0 <= j < outcomes.len() implies !is_preferred(
                    outcomes[j],
                ) by {
                    if j >= 1 {
                        assert(!is_preferred(rest[j - 1]));
                    }
                }
            },
            Some(i) => {
                assert(selected(outcomes) == Some(i + 1));
                assert(is_preferred(rest[i]));
                assert forall|j: int| 0 <= j < i + 1 implies !is_preferred(outcomes[j]) by {
                    if j >= 1 {
                        assert(!is_preferred(rest[j - 1]));
                    }
                }
            },
        }
    }
}

/// Selection is deterministic: the outcomes admit one first preferred
/// position at most, so any two runs over the same outcomes agree.
pub proof fn lemma_selection_deterministic(
    outcomes: Seq<DownloadOutcome>,
    r1: Option<int>,
    r2: Option<int>,
)
    requires
        is_first_preferred(outcomes, r1),
        is_first_preferred(outcomes, r2),
    ensures
        r1 == r2,
{
    match (r1, r2) {
        (Some(i), Some(k)) => {
            if i < k {
                assert(!is_preferred(outcomes[i]));
            } else if k < i {
                assert(!is_preferred(outcomes[k]));
            }
        },
        (Some(i), None) => {
            assert(!is_preferred(outcomes[i]));
        },
        (None, Some(k)) => {
            assert(!is_preferred(outcomes[k]));
        },
        (None, None) => {},
    }
}

/// Pick the winning candidate: the first outcome, in plan order, whose
/// download succeeded and whose locator ends with the preferred marker.
/// Zero outcomes, or none preferred, yield `None`: the absence of playable
/// audio is an expected outcome, not an error, and a failed download never
/// hides a later preferred one.
pub fn select_candidate(outcomes: &Vec<DownloadOutcome>) -> (r: Option<usize>)
    ensures
        match r {
            Some(i) => selected(outcomes@) == Some(i as int),
            None => selected(outcomes@) is None,
        },
        is_first_preferred(
            outcomes@,
            match r {
                Some(i) => Some(i as int),
                None => None,
            },
        ),
{
    let mut i: usize = 0;
    while i < outcomes.len()
        invariant
            i <= outcomes@.len(),
            forall|j: int| 0 <= j < i ==> !is_preferred(outcomes@[j]),
        decreases outcomes@.len() - i,
    {
        if outcomes[i].result.is_ok() {
            let name = file_name_of(outcomes[i].url.as_str());
            if str_ends_with(name.as_str(), "us.mp3") {
                proof {
                    lemma_preferred_suffix_chars();
                    lemma_name_suffix_iff_url_suffix(outcomes@[i as int].url@, preferred_suffix());
                    assert(is_first_preferred(outcomes@, Some(i as int)));
                    lemma_selected_is_first_preferred(outcomes@);
                    lemma_selection_deterministic(
                        outcomes@,
                        selected(outcomes@),
                        Some(i as int),
                    );
                }
                return Some(i);
            }
            proof {
                lemma_preferred_suffix_chars();
                lemma_name_suffix_iff_url_suffix(outcomes@[i as int].url@, preferred_suffix());
            }
        }
        i = i + 1;
    }
    proof {
        lemma_selected_is_first_preferred(outcomes@);
        lemma_selection_deterministic(outcomes@, selected(outcomes@), None);
    }
    None
}

/// The download plan of an entry list names each distinct locator of the
/// list exactly once: no locator appears twice, none is dropped, none is
/// invented.  One download is issued per element of the plan.
pub proof fn lemma_plan_one_download_per_locator(words: Seq<Word>)
    ensures
        forall|i: int, j: int|
            0 <= i < j < dedup(entry_urls(words)).len() ==> dedup(entry_urls(words))[i] != dedup(
                entry_urls(words),
            )[j],
        forall|x: Seq<char>|
            dedup(entry_urls(words)).contains(x) <==> entry_urls(words).contains(x),
{
    lemma_dedup_distinct(entry_urls(words));
    assert forall|x: Seq<char>|
        dedup(entry_urls(words)).contains(x) <==> entry_urls(words).contains(x) by {
        lemma_dedup_members(entry_urls(words), x);
    }
}

/// An entry list with no audio locators yields an empty download plan, so
/// no download is issued, and selection over the resulting empty outcome
/// list yields no candidate.
pub proof fn lemma_empty_input_no_candidate(words: Seq<Word>)
    requires
        entry_urls(words).len() == 0,
    ensures
        dedup(entry_urls(words)) == Seq::<Seq<char>>::empty(),
        selected(Seq::<DownloadOutcome>::empty()) is None,
{
}

/// Failure isolation: as long as one download succeeded with a preferred
/// locator, a winner is selected, and the winner is such an outcome —
/// failures of other downloads never turn the resolution into a failure.
pub proof fn lemma_failure_isolation(outcomes: Seq<DownloadOutcome>, i: int)
    requires
        0 <= i < outcomes.len(),
        is_preferred(outcomes[i]),
    ensures
        selected(outcomes) is Some,
        is_preferred(outcomes[selected(outcomes).unwrap()]),
{
    lemma_selected_is_first_preferred(outcomes);
    if selected(outcomes) is None {
        assert(!is_preferred(outcomes[i]));
    }
}

/// When no successfully downloaded outcome carries the preferred marker,
/// selection yields no candidate, even when successful downloads exist.
pub proof fn lemma_no_match_no_candidate(outcomes: Seq<DownloadOutcome>)
    requires
        forall|i: int| 0 <= i < outcomes.len() ==> !is_preferred(outcomes[i]),
    ensures
        selected(outcomes) is None,
{
    lemma_selected_is_first_preferred(outcomes);
    lemma_selection_deterministic(outcomes, selected(outcomes), None);
}

} // verus!
