//! Telling a registered window among the live ones.

use vstd::prelude::*;
use std::collections::HashSet;

use crate::domain::workset::WindowMatcher;
use crate::text;
use crate::windowing::enumerate::TopLevelWindow;

verus! {

broadcast use vstd::std_specs::hash::group_hash_axioms;

/// What the search for one registered window came to.
#[derive(Debug, PartialEq, Eq)]
pub enum MatchDecision {
    /// This live window is the registered one.
    AutoRebind { hwnd: isize },
    /// Several live windows could be it.
    Ambiguous { candidates: Vec<isize> },
    /// None is.
    Unresolved,
}

/// A [`MatchDecision`] as a mathematical value.
pub enum MatchView {
    AutoRebind(isize),
    Ambiguous(Seq<isize>),
    Unresolved,
}

impl View for MatchDecision {
    type V = MatchView;

    open spec fn view(&self) -> MatchView {
        match self {
            MatchDecision::AutoRebind { hwnd } => MatchView::AutoRebind(*hwnd),
            MatchDecision::Ambiguous { candidates } => MatchView::Ambiguous(candidates@),
            MatchDecision::Unresolved => MatchView::Unresolved,
        }
    }
}

/// The handle that a decision settles on.
pub open spec fn settled(decision: MatchView) -> Option<isize> {
    match decision {
        MatchView::AutoRebind(hwnd) => Some(hwnd),
        _ => None,
    }
}

/// A rule for finding a registered window among the live ones.
pub trait WindowMatching {
    /// What is decided for `matcher`, given the live windows and the handles already taken.
    spec fn best_match(
        &self,
        matcher: WindowMatcher,
        live: Seq<TopLevelWindow>,
        taken: Set<isize>,
    ) -> MatchView;

    /// The title of `window` speaks for it being the one that `matcher` describes.
    spec fn title_speaks_for(&self, matcher: WindowMatcher, window: TopLevelWindow) -> bool;

    /// A window that is taken is never settled on again.
    proof fn taken_stays_taken(
        &self,
        matcher: WindowMatcher,
        live: Seq<TopLevelWindow>,
        taken: Set<isize>,
    )
        ensures
            settled(self.best_match(matcher, live, taken)) matches Some(hwnd) ==> !taken.contains(
                hwnd,
            ),
    ;

    fn resolve_best_match(
        &self,
        matcher: &WindowMatcher,
        live: &[TopLevelWindow],
        taken: &HashSet<isize>,
    ) -> (r: MatchDecision)
        ensures
            r@ == self.best_match(*matcher, live@, taken@),
    ;

    fn has_title_evidence(&self, matcher: &WindowMatcher, window: &TopLevelWindow) -> (r: bool)
        ensures
            r == self.title_speaks_for(*matcher, *window),
    ;
}

/// The registration itself says how its window's title is told apart.
pub open spec fn discriminates(matcher: WindowMatcher) -> bool {
    matcher.title_contains is Some || matcher.title_regex is Some
}

pub fn has_discriminator(matcher: &WindowMatcher) -> (r: bool)
    ensures
        r == discriminates(*matcher),
{
    matcher.title_contains.is_some() || matcher.title_regex.is_some()
}

/// The same program, but for the case of ASCII letters in its path.
pub fn same_executable(a: &str, b: &str) -> (r: bool)
    ensures
        r == text::same_ignoring_ascii_case(a@, b@),
{
    text::equal_ignoring_ascii_case(a, b)
}

/// The plain rule: the same program and window class, and a title that is the registered one or
/// holds the wanted text. It settles on the only such window that is not taken.
#[derive(Debug)]
pub struct PlainMatching {}

impl PlainMatching {
    /// The title holds the wanted text.
    pub open spec fn title_fits(matcher: WindowMatcher, window: TopLevelWindow) -> bool {
        match matcher.title_contains {
            Some(needle) => text::occurs(window.title@, needle@),
            None => false,
        }
    }

    /// `window` could be the one that `matcher` describes.
    pub open spec fn could_be(
        matcher: WindowMatcher,
        window: TopLevelWindow,
        taken: Set<isize>,
    ) -> bool {
        &&& !taken.contains(window.hwnd)
        &&& match window.executable_path {
            Some(path) => text::same_ignoring_ascii_case(path@, matcher.executable_path@),
            None => false,
        }
        &&& window.window_class@ == matcher.window_class@
        &&& (window.title@ == matcher.registered_title@ || Self::title_fits(matcher, window))
    }

    /// The handles of the first `n` live windows that could be it.
    pub open spec fn candidates(
        matcher: WindowMatcher,
        live: Seq<TopLevelWindow>,
        taken: Set<isize>,
        n: nat,
    ) -> Seq<isize>
        decreases n,
    {
        if n == 0 {
            Seq::empty()
        } else {
            let before = Self::candidates(matcher, live, taken, (n - 1) as nat);
            if Self::could_be(matcher, live[n - 1], taken) {
                before.push(live[n - 1].hwnd)
            } else {
                before
            }
        }
    }

    proof fn lemma_candidates_free(
        matcher: WindowMatcher,
        live: Seq<TopLevelWindow>,
        taken: Set<isize>,
        n: nat,
    )
        requires
            n <= live.len(),
        ensures
            forall|i: int|
                0 <= i < Self::candidates(matcher, live, taken, n).len() ==> !taken.contains(
                    #[trigger] Self::candidates(matcher, live, taken, n)[i],
                ),
        decreases n,
    {
        if n > 0 {
            Self::lemma_candidates_free(matcher, live, taken, (n - 1) as nat);
            let before = Self::candidates(matcher, live, taken, (n - 1) as nat);
            let now = Self::candidates(matcher, live, taken, n);
            assert forall|i: int| 0 <= i < now.len() implies !taken.contains(#[trigger] now[i]) by {
                if i < before.len() {
                    assert(now[i] == before[i]);
                }
            }
        }
    }

    fn could_be_window(
        matcher: &WindowMatcher,
        window: &TopLevelWindow,
        taken: &HashSet<isize>,
    ) -> (r: bool)
        ensures
            r == Self::could_be(*matcher, *window, taken@),
    {
        let same_program = match &window.executable_path {
            Some(path) => same_executable(path.as_str(), matcher.executable_path.as_str()),
            None => false,
        };
        let title_fits = match &matcher.title_contains {
            Some(needle) => text::contains_text(window.title.as_str(), needle.as_str()),
            None => false,
        };
        !taken.contains(&window.hwnd) && same_program && window.window_class == matcher.window_class
            && (window.title == matcher.registered_title || title_fits)
    }
}

impl WindowMatching for PlainMatching {
    open spec fn best_match(
        &self,
        matcher: WindowMatcher,
        live: Seq<TopLevelWindow>,
        taken: Set<isize>,
    ) -> MatchView {
        let found = Self::candidates(matcher, live, taken, live.len());
        if found.len() == 0 {
            MatchView::Unresolved
        } else if found.len() == 1 {
            MatchView::AutoRebind(found[0])
        } else {
            MatchView::Ambiguous(found)
        }
    }

    open spec fn title_speaks_for(&self, matcher: WindowMatcher, window: TopLevelWindow) -> bool {
        Self::title_fits(matcher, window)
    }

    proof fn taken_stays_taken(
        &self,
        matcher: WindowMatcher,
        live: Seq<TopLevelWindow>,
        taken: Set<isize>,
    ) {
        Self::lemma_candidates_free(matcher, live, taken, live.len());
    }

    fn resolve_best_match(
        &self,
        matcher: &WindowMatcher,
        live: &[TopLevelWindow],
        taken: &HashSet<isize>,
    ) -> (r: MatchDecision) {
        let mut found: Vec<isize> = Vec::new();
        let mut i: usize = 0;
        while i < live.len()
            invariant
                i <= live@.len(),
                found@ == Self::candidates(*matcher, live@, taken@, i as nat),
            decreases live@.len() - i,
        {
            if Self::could_be_window(matcher, &live[i], taken) {
                found.push(live[i].hwnd);
            }
            i += 1;
        }
        if found.len() == 0 {
            MatchDecision::Unresolved
        } else if found.len() == 1 {
            MatchDecision::AutoRebind { hwnd: found[0] }
        } else {
            MatchDecision::Ambiguous { candidates: found }
        }
    }

    fn has_title_evidence(&self, matcher: &WindowMatcher, window: &TopLevelWindow) -> (r: bool) {
        match &matcher.title_contains {
            Some(needle) => text::contains_text(window.title.as_str(), needle.as_str()),
            None => false,
        }
    }
}

/// The window runs the program of the registration, is of its class, and has its title or one that
/// holds the wanted words; and it is not spoken for.
pub open spec fn fits(matcher: WindowMatcher, w: TopLevelWindow, taken: Set<isize>) -> bool {
    &&& !taken.contains(w.hwnd)
    &&& w.executable_path is Some
    &&& text::ascii_lower(w.executable_path->0@) == text::ascii_lower(matcher.executable_path@)
    &&& w.window_class@ == matcher.window_class@
    &&& w.title@ == matcher.registered_title@ || (matcher.title_contains is Some && text::occurs(
        w.title@,
        matcher.title_contains->0@,
    ))
}

proof fn lemma_one_candidate(
    matcher: WindowMatcher,
    live: Seq<TopLevelWindow>,
    taken: Set<isize>,
    n: nat,
    k: int,
)
    requires
        n <= live.len(),
        forall|i: int|
            0 <= i < live.len() ==> (fits(matcher, #[trigger] live[i], taken) <==> i == k),
    ensures
        PlainMatching::candidates(matcher, live, taken, n) == if 0 <= k < n {
            seq![live[k].hwnd]
        } else {
            Seq::empty()
        },
    decreases n,
{
    if n > 0 {
        lemma_one_candidate(matcher, live, taken, (n - 1) as nat, k);
        assert(fits(matcher, live[n - 1], taken) <==> n - 1 == k);
        assert(PlainMatching::could_be(matcher, live[n - 1], taken) <==> n - 1 == k);
        if 0 <= k < n {
            assert(PlainMatching::candidates(matcher, live, taken, n) =~= seq![live[k].hwnd]);
        }
    }
}

/// A window is settled on where it is the only one that fits, and where none fits nothing is.
pub proof fn law_the_only_window_that_fits_is_settled_on(
    rule: PlainMatching,
    matcher: WindowMatcher,
    live: Seq<TopLevelWindow>,
    taken: Set<isize>,
    k: int,
)
    requires
        forall|i: int|
            0 <= i < live.len() ==> (fits(matcher, #[trigger] live[i], taken) <==> i == k),
    ensures
        0 <= k < live.len() ==> rule.best_match(matcher, live, taken) == MatchView::AutoRebind(
            live[k].hwnd,
        ),
        !(0 <= k < live.len()) ==> rule.best_match(matcher, live, taken) == MatchView::Unresolved,
{
    lemma_one_candidate(matcher, live, taken, live.len(), k);
}

proof fn lemma_candidate_for(
    matcher: WindowMatcher,
    live: Seq<TopLevelWindow>,
    taken: Set<isize>,
    n: nat,
    k: int,
) -> (x: int)
    requires
        0 <= k < n <= live.len(),
        fits(matcher, live[k], taken),
    ensures
        0 <= x < PlainMatching::candidates(matcher, live, taken, n).len(),
        PlainMatching::candidates(matcher, live, taken, n)[x] == live[k].hwnd,
    decreases n,
{
    assert(PlainMatching::could_be(matcher, live[k], taken));
    if k < n - 1 {
        lemma_candidate_for(matcher, live, taken, (n - 1) as nat, k)
    } else {
        PlainMatching::candidates(matcher, live, taken, (n - 1) as nat).len() as int
    }
}

/// Where two windows fit, none is settled on, and both are named.
pub proof fn law_of_two_windows_that_fit_none_is_settled_on(
    rule: PlainMatching,
    matcher: WindowMatcher,
    live: Seq<TopLevelWindow>,
    taken: Set<isize>,
    a: int,
    b: int,
)
    requires
        0 <= a < live.len(),
        0 <= b < live.len(),
        live[a].hwnd != live[b].hwnd,
        fits(matcher, live[a], taken),
        fits(matcher, live[b], taken),
    ensures
        rule.best_match(matcher, live, taken) matches MatchView::Ambiguous(found) && found.contains(
            live[a].hwnd,
        ) && found.contains(live[b].hwnd),
{
    let x = lemma_candidate_for(matcher, live, taken, live.len(), a);
    let y = lemma_candidate_for(matcher, live, taken, live.len(), b);
}

} // verus!
