//! Rewriting of syntax trees before they are run.

use vstd::prelude::*;
use crate::ast::{
    choice_view, terms_view, Alternative, Alternatives, AlternativesView, Quantifier, SpecialTerm,
    SpecialView, Term,
};
use crate::error::Fault;
use crate::semantics::{
    alts_sem, choice_sem, deeper, lemma_seq_concat, lemma_then_assoc, seq_sem, then,
    DefinitionView, Run,
};

verus! {

/// Whether two lists of ranges hold the same ranges.
fn ranges_eq(a: &Vec<(char, Option<char>)>, b: &Vec<(char, Option<char>)>) -> (r: bool)
    ensures
        r == (a@ == b@),
{
    if a.len() != b.len() {
        return false;
    }
    let mut i: usize = 0;
    while i < a.len()
        invariant
            a@.len() == b@.len(),
            i <= a@.len(),
            forall|j: int| 0 <= j < i ==> a@[j] == b@[j],
        decreases a@.len() - i,
    {
        let same_end = match (a[i].1, b[i].1) {
            (Some(x), Some(y)) => x == y,
            (None, None) => true,
            _ => false,
        };
        if a[i].0 != b[i].0 || !same_end {
            return false;
        }
        i = i + 1;
    }
    assert(a@ =~= b@);
    true
}

/// Whether two terms are the same.
pub fn term_eq(a: &Term, b: &Term) -> (r: bool)
    ensures
        r == (a@ == b@),
    decreases *a,
{
    match (a, b) {
        (Term::String(s), Term::String(t)) => *s == *t,
        (Term::Character(c), Term::Character(d)) => *c == *d,
        (Term::Rule(s), Term::Rule(t)) => *s == *t,
        (
            Term::CharacterClass { negative: n, ranges: r },
            Term::CharacterClass { negative: m, ranges: s },
        ) => n.is_some() == m.is_some() && ranges_eq(r, s),
        (Term::Group(g), Term::Group(h)) => alternatives_eq(g, h),
        _ => false,
    }
}

/// Whether two quantifiers are the same.
pub fn quantifier_eq(a: &Quantifier, b: &Quantifier) -> (r: bool)
    ensures
        r == (a@ == b@),
    decreases *a,
{
    match (a, b) {
        (Quantifier::Optional, Quantifier::Optional) => true,
        (Quantifier::RepeatAtleastOnce, Quantifier::RepeatAtleastOnce) => true,
        (
            Quantifier::RepeatSeperate { seperator: s },
            Quantifier::RepeatSeperate { seperator: t },
        ) => term_eq(s, t),
        (Quantifier::RepeatUnlimited, Quantifier::RepeatUnlimited) => true,
        (Quantifier::RepeatMin { min: m }, Quantifier::RepeatMin { min: n }) => *m == *n,
        (Quantifier::Repeat { min: m, max: x }, Quantifier::Repeat { min: n, max: y }) => *m == *n
            && *x == *y,
        (Quantifier::Once, Quantifier::Once) => true,
        _ => false,
    }
}

/// Whether two special terms are the same: of the same kind, with the same
/// name, term and quantifier.
pub fn special_eq(a: &SpecialTerm, b: &SpecialTerm) -> (r: bool)
    ensures
        r == (a@ == b@),
    decreases *a,
{
    match (a, b) {
        (SpecialTerm::Binding(n, t, q), SpecialTerm::Binding(m, u, r)) => *n == *m && term_eq(t, u)
            && quantifier_eq(q, r),
        (SpecialTerm::NegativeLookahead(t, q), SpecialTerm::NegativeLookahead(u, r)) => term_eq(
            t,
            u,
        ) && quantifier_eq(q, r),
        (SpecialTerm::Quiet(t, q), SpecialTerm::Quiet(u, r)) => term_eq(t, u) && quantifier_eq(
            q,
            r,
        ),
        (SpecialTerm::Term(t, q), SpecialTerm::Term(u, r)) => term_eq(t, u) && quantifier_eq(q, r),
        _ => false,
    }
}

/// Whether two sequences of terms are the same, term by term.
pub fn terms_eq(a: &Vec<SpecialTerm>, b: &Vec<SpecialTerm>) -> (r: bool)
    ensures
        r == (terms_view(a@) == terms_view(b@)),
    decreases a@,
{
    if a.len() != b.len() {
        assert(terms_view(a@).len() != terms_view(b@).len());
        return false;
    }
    let mut i: usize = 0;
    while i < a.len()
        invariant
            a@.len() == b@.len(),
            i <= a@.len(),
            forall|j: int| 0 <= j < i ==> (#[trigger] a@[j])@ == b@[j]@,
        decreases a@.len() - i,
    {
        if !special_eq(&a[i], &b[i]) {
            assert(terms_view(a@)[i as int] != terms_view(b@)[i as int]);
            return false;
        }
        i = i + 1;
    }
    assert(terms_view(a@) =~= terms_view(b@));
    true
}

/// Whether two choices are the same, part by part.
pub fn alternatives_eq(a: &Alternatives, b: &Alternatives) -> (r: bool)
    ensures
        r == (a@ == b@),
    decreases *a,
{
    if !terms_eq(&a.preparse, &b.preparse) || a.alternatives.len() != b.alternatives.len() {
        assert(a@.preparse != b@.preparse || a@.alternatives.len() != b@.alternatives.len());
        return false;
    }
    let mut i: usize = 0;
    while i < a.alternatives.len()
        invariant
            a.alternatives@.len() == b.alternatives@.len(),
            i <= a.alternatives@.len(),
            terms_view(a.preparse@) == terms_view(b.preparse@),
            forall|j: int|
                0 <= j < i ==> terms_view((#[trigger] a.alternatives@[j]).terms@) == terms_view(
                    b.alternatives@[j].terms@,
                ),
        decreases a.alternatives@.len() - i,
    {
        if !terms_eq(&a.alternatives[i].terms, &b.alternatives[i].terms) {
            assert(choice_view(a.alternatives@)[i as int] != choice_view(b.alternatives@)[i as int]);
            return false;
        }
        i = i + 1;
    }
    assert(choice_view(a.alternatives@) =~= choice_view(b.alternatives@));
    true
}

/// The place of the first alternative from `i` on that has no terms.
pub open spec fn first_empty(alts: Seq<Seq<SpecialView>>, i: int) -> Option<int>
    decreases alts.len() - i,
{
    if i < 0 || i >= alts.len() {
        None
    } else if alts[i].len() == 0 {
        Some(i)
    } else {
        first_empty(alts, i + 1)
    }
}

/// The alternatives that can be reached: an alternative without terms always
/// matches, so those after the first such one are never tried.
pub open spec fn reachable(alts: Seq<Seq<SpecialView>>) -> Seq<Seq<SpecialView>> {
    match first_empty(alts, 0) {
        Some(e) => alts.subrange(0, e + 1),
        None => alts,
    }
}

/// Whether every alternative has a `j`-th term and it is the same in all.
pub open spec fn common_at(alts: Seq<Seq<SpecialView>>, j: int) -> bool {
    forall|i: int| 0 <= i < alts.len() ==> j < (#[trigger] alts[i]).len() && alts[i][j] == alts[0][j]
}

/// The length of the longest prefix of terms that all alternatives share,
/// given that they share the first `j`.
pub open spec fn common_prefix(alts: Seq<Seq<SpecialView>>, j: int) -> int
    decreases alts[0].len() - j,
{
    if alts.len() > 0 && 0 <= j < alts[0].len() && common_at(alts, j) {
        common_prefix(alts, j + 1)
    } else {
        j
    }
}

/// The number of leading terms that optimising moves out of the
/// alternatives: the shared ones, where there is more than one alternative.
pub open spec fn shared(alts: Seq<Seq<SpecialView>>) -> int {
    if alts.len() > 1 {
        common_prefix(alts, 0)
    } else {
        0
    }
}

/// The choice optimised: the unreachable alternatives are gone, and the
/// terms that all the others begin with stand once, at the end of
/// `preparse`, and no longer in the alternatives.
pub open spec fn optimised(a: AlternativesView) -> AlternativesView {
    let alts = reachable(a.alternatives);
    let k = shared(alts);
    AlternativesView {
        preparse: if alts.len() > 0 {
            a.preparse + alts[0].subrange(0, k)
        } else {
            a.preparse
        },
        alternatives: Seq::new(alts.len(), |i: int| alts[i].subrange(k, alts[i].len() as int)),
    }
}

/// The place of the first alternative that has no terms.
fn find_empty(alts: &Vec<Alternative>) -> (r: Option<usize>)
    ensures
        match first_empty(choice_view(alts@), 0) {
            Some(e) => r == Some(e as usize) && 0 <= e < alts@.len(),
            None => r is None,
        },
        r matches Some(e) ==> e < alts@.len(),
{
    let mut i: usize = 0;
    while i < alts.len()
        invariant
            i <= alts@.len(),
            first_empty(choice_view(alts@), 0) == first_empty(choice_view(alts@), i as int),
        decreases alts@.len() - i,
    {
        if alts[i].terms.len() == 0 {
            return Some(i);
        }
        i = i + 1;
    }
    None
}

/// Whether every alternative has a `j`-th term and it is the same in all.
fn is_common(alts: &Vec<Alternative>, j: usize) -> (r: bool)
    requires
        alts@.len() > 0,
        j < alts@[0].terms@.len(),
    ensures
        r == common_at(choice_view(alts@), j as int),
{
    let ghost views = choice_view(alts@);
    let mut i: usize = 0;
    while i < alts.len()
        invariant
            i <= alts@.len(),
            alts@.len() > 0,
            j < alts@[0].terms@.len(),
            views == choice_view(alts@),
            forall|n: int|
                0 <= n < i ==> j < (#[trigger] views[n]).len() && views[n][j as int]
                    == views[0][j as int],
        decreases alts@.len() - i,
    {
        if j >= alts[i].terms.len() || !special_eq(&alts[i].terms[j], &alts[0].terms[j]) {
            assert(!(j < views[i as int].len() && views[i as int][j as int] == views[0][j as int]));
            return false;
        }
        i = i + 1;
    }
    true
}

/// The length of the longest prefix of terms that all alternatives share.
fn count_common(alts: &Vec<Alternative>) -> (k: usize)
    requires
        alts@.len() > 0,
    ensures
        k == common_prefix(choice_view(alts@), 0),
        k <= alts@[0].terms@.len(),
{
    let mut j: usize = 0;
    while j < alts[0].terms.len()
        invariant
            alts@.len() > 0,
            j <= alts@[0].terms@.len(),
            common_prefix(choice_view(alts@), 0) == common_prefix(choice_view(alts@), j as int),
        decreases alts@[0].terms@.len() - j,
    {
        if !is_common(alts, j) {
            return j;
        }
        j = j + 1;
    }
    j
}

/// Every alternative is at least as long as the prefix that all share.
proof fn lemma_common_prefix(alts: Seq<Seq<SpecialView>>, j: int, i: int)
    requires
        0 <= i < alts.len(),
        0 <= j <= alts[i].len(),
    ensures
        j <= common_prefix(alts, j) <= alts[i].len(),
    decreases alts[0].len() - j,
{
    if 0 <= j < alts[0].len() && common_at(alts, j) {
        assert(j < alts[i].len());
        lemma_common_prefix(alts, j + 1, i);
    }
}

/// The models of a part of a sequence of terms are that part of its models.
proof fn lemma_terms_view_subrange(terms: Seq<SpecialTerm>, a: int, b: int)
    requires
        0 <= a <= b <= terms.len(),
    ensures
        terms_view(terms.subrange(a, b)) == terms_view(terms).subrange(a, b),
{
    assert(terms_view(terms.subrange(a, b)) =~= terms_view(terms).subrange(a, b));
}

impl Alternatives {
    /// Drops the alternatives that can never be tried and moves the terms
    /// that all the others begin with into `preparse`, so that they are
    /// matched once instead of once for each alternative.
    pub fn optimise(&mut self)
        ensures
            final(self)@ == optimised(old(self)@),
    {
        let mut alts: Vec<Alternative> = Vec::new();
        core::mem::swap(&mut alts, &mut self.alternatives);
        let ghost all = choice_view(alts@);
        if let Some(e) = find_empty(&alts) {
            if e < alts.len() - 1 {
                alts.truncate(e + 1);
            }
        }
        let ghost kept = alts@;
        let ghost views = choice_view(kept);
        assert(views =~= reachable(all));
        if alts.len() > 1 {
            let k = count_common(&alts);
            let mut rest: Vec<Alternative> = Vec::new();
            let mut i: usize = 0;
            let n = alts.len();
            while alts.len() > 0
                invariant
                    kept.len() == n,
                    views == choice_view(kept),
                    i + alts@.len() == n,
                    alts@ == kept.subrange(i as int, n as int),
                    rest@.len() == i,
                    k == common_prefix(views, 0),
                    forall|m: int|
                        0 <= m < i ==> terms_view((#[trigger] rest@[m]).terms@) == views[m].subrange(
                            k as int,
                            views[m].len() as int,
                        ),
                    terms_view(self.preparse@) == if i > 0 {
                        terms_view(old(self).preparse@) + views[0].subrange(0, k as int)
                    } else {
                        terms_view(old(self).preparse@)
                    },
                decreases alts@.len(),
            {
                let alt = alts.remove(0);
                assert(alt == kept[i as int]);
                proof {
                    lemma_common_prefix(views, 0, i as int);
                }
                let mut terms = alt.terms;
                let ghost whole = terms@;
                let tail = terms.split_off(k);
                proof {
                    lemma_terms_view_subrange(whole, k as int, whole.len() as int);
                    lemma_terms_view_subrange(whole, 0, k as int);
                }
                if i == 0 {
                    let ghost head = terms@;
                    let ghost before = self.preparse@;
                    let mut j: usize = 0;
                    while terms.len() > 0
                        invariant
                            head.len() <= usize::MAX,
                            j + terms@.len() == head.len(),
                            terms@ == head.subrange(j as int, head.len() as int),
                            self.preparse@ == before + head.subrange(0, j as int),
                        decreases terms@.len(),
                    {
                        let term = terms.remove(0);
                        self.preparse.push(term);
                        j = j + 1;
                        assert(self.preparse@ =~= before + head.subrange(0, j as int));
                        assert(terms@ =~= head.subrange(j as int, head.len() as int));
                    }
                    assert(head.subrange(0, j as int) =~= head);
                    assert(terms_view(before + head) =~= terms_view(before) + terms_view(head));
                }
                let ghost earlier = rest@;
                rest.push(Alternative { terms: tail });
                i = i + 1;
                assert(alts@ =~= kept.subrange(i as int, n as int));
                assert forall|m: int| 0 <= m < i implies terms_view((#[trigger] rest@[m]).terms@)
                    == views[m].subrange(k as int, views[m].len() as int) by {
                    if m < i - 1 {
                        assert(rest@[m] == earlier[m]);
                    }
                }
            }
            self.alternatives = rest;
            assert(choice_view(self.alternatives@) =~= optimised(old(self)@).alternatives);
        } else {
            self.alternatives = alts;
            assert(choice_view(self.alternatives@) =~= optimised(old(self)@).alternatives) by {
                assert forall|m: int| 0 <= m < views.len() implies (#[trigger] views[m]).subrange(
                    0,
                    views[m].len() as int,
                ) == views[m] by {
                    assert(views[m].subrange(0, views[m].len() as int) =~= views[m]);
                }
            }
            assert(views.len() > 0 ==> terms_view(old(self).preparse@) + views[0].subrange(0, 0)
                =~= terms_view(old(self).preparse@));
        }
    }
}

impl Alternative {
    /// Leaves the alternative as it is: a sequence has nothing to optimise.
    pub fn optimise(&mut self)
        ensures
            *final(self) == *old(self),
    {
    }
}

/// The first alternative without terms, if there is one, stands behind
/// alternatives that all have terms.
proof fn lemma_first_empty(alts: Seq<Seq<SpecialView>>, i: int)
    requires
        0 <= i,
    ensures
        match first_empty(alts, i) {
            Some(e) => {
                &&& i <= e < alts.len()
                &&& alts[e].len() == 0
                &&& forall|j: int| i <= j < e ==> (#[trigger] alts[j]).len() > 0
            },
            None => forall|j: int| i <= j < alts.len() ==> (#[trigger] alts[j]).len() > 0,
        },
    decreases alts.len() - i,
{
    if i < alts.len() && alts[i].len() != 0 {
        lemma_first_empty(alts, i + 1);
    }
}

/// Alternatives after one without terms are never reached: the list does
/// as its reachable part does.
proof fn lemma_reachable(
    rules: Seq<DefinitionView>,
    alts: Seq<Seq<SpecialView>>,
    i: int,
    input: Seq<u8>,
    pos: int,
    depth: nat,
    keep: bool,
    best: Option<Fault>,
)
    requires
        0 <= i,
        first_empty(alts, 0) == first_empty(alts, i),
    ensures
        choice_sem(rules, alts, i, input, pos, depth, keep, best) == choice_sem(
            rules,
            reachable(alts),
            i,
            input,
            pos,
            depth,
            keep,
            best,
        ),
    decreases alts.len() - i,
{
    let kept = reachable(alts);
    lemma_first_empty(alts, 0);
    lemma_first_empty(alts, i);
    if i < alts.len() {
        assert(i < kept.len());
        assert(kept[i] == alts[i]);
        if alts[i].len() != 0 {
            match seq_sem(rules, alts[i], 0, input, pos, depth, keep) {
                Ok(_) => {},
                Err(f) => lemma_reachable(
                    rules,
                    alts,
                    i + 1,
                    input,
                    pos,
                    depth,
                    keep,
                    Some(deeper(best, f)),
                ),
            }
        } else {
            assert(seq_sem(rules, alts[i], 0, input, pos, depth, keep) is Ok);
        }
    } else {
        assert(i >= kept.len());
    }
}

/// All alternatives share the terms in front of the prefix they share.
proof fn lemma_common(alts: Seq<Seq<SpecialView>>, j: int, m: int)
    requires
        0 <= j <= m < common_prefix(alts, j),
    ensures
        common_at(alts, m),
    decreases alts[0].len() - j,
{
    if alts.len() > 0 && 0 <= j < alts[0].len() && common_at(alts, j) {
        if j < m {
            lemma_common(alts, j + 1, m);
        }
    }
}

/// What a list of alternatives that all begin with the terms `head` does,
/// by what `head` does: where `head` matches, it goes on as the list of
/// what is left of each alternative; where `head` does not match, no
/// alternative does, and the fault of `head` is reported unless `best` ends
/// later.
proof fn lemma_factor(
    rules: Seq<DefinitionView>,
    alts: Seq<Seq<SpecialView>>,
    tails: Seq<Seq<SpecialView>>,
    head: Seq<SpecialView>,
    i: int,
    input: Seq<u8>,
    pos: int,
    depth: nat,
    keep: bool,
    best: Option<Fault>,
)
    requires
        0 <= i < alts.len(),
        alts.len() == tails.len(),
        forall|n: int| 0 <= n < alts.len() ==> #[trigger] alts[n] == head + tails[n],
    ensures
        choice_sem(rules, alts, i, input, pos, depth, keep, best) == match seq_sem(
            rules,
            head,
            0,
            input,
            pos,
            depth,
            keep,
        ) {
            Ok(h) => match choice_sem(rules, tails, i, input, h.end, depth, keep, best) {
                Ok(rest) => Ok::<Run, Fault>(then(h, rest)),
                Err(f) => Err(f),
            },
            Err(f) => Err(deeper(best, f)),
        },
    decreases alts.len() - i,
{
    lemma_seq_concat(rules, head, tails[i], 0, input, pos, depth, keep);
    assert(alts[i] == head + tails[i]);
    match seq_sem(rules, head, 0, input, pos, depth, keep) {
        Ok(h) => {
            match seq_sem(rules, tails[i], 0, input, h.end, depth, keep) {
                Ok(_) => {},
                Err(f) => {
                    if i + 1 < alts.len() {
                        lemma_factor(
                            rules,
                            alts,
                            tails,
                            head,
                            i + 1,
                            input,
                            pos,
                            depth,
                            keep,
                            Some(deeper(best, f)),
                        );
                    }
                },
            }
        },
        Err(f) => {
            if i + 1 < alts.len() {
                lemma_factor(
                    rules,
                    alts,
                    tails,
                    head,
                    i + 1,
                    input,
                    pos,
                    depth,
                    keep,
                    Some(deeper(best, f)),
                );
            }
        },
    }
}

/// Optimising changes nothing that can be observed: the optimised choice
/// matches exactly where the choice matched before, ends where it ended,
/// yields the same, binds the same names to the same stretches of input
/// and the same values, and where it does not match reports the same,
/// whatever the rules, the input, the position and the depth.
pub proof fn lemma_optimise_preserves(
    rules: Seq<DefinitionView>,
    a: AlternativesView,
    input: Seq<u8>,
    pos: int,
    depth: nat,
    keep: bool,
)
    ensures
        alts_sem(rules, optimised(a), input, pos, depth, keep) == alts_sem(
            rules,
            a,
            input,
            pos,
            depth,
            keep,
        ),
{
    let alts = reachable(a.alternatives);
    let k = shared(alts);
    let tails = optimised(a).alternatives;
    lemma_first_empty(a.alternatives, 0);
    if alts.len() > 0 {
        if alts.len() > 1 {
            lemma_common_prefix(alts, 0, 0);
        }
        let head = alts[0].subrange(0, k);
        lemma_seq_concat(rules, a.preparse, head, 0, input, pos, depth, keep);
        assert forall|n: int| 0 <= n < alts.len() implies #[trigger] alts[n] == head + tails[n] by {
            if alts.len() > 1 {
                lemma_common_prefix(alts, 0, n);
                assert forall|j: int| 0 <= j < k implies alts[n][j] == head[j] by {
                    lemma_common(alts, 0, j);
                }
            }
            assert(alts[n] =~= head + tails[n]);
        }
        match seq_sem(rules, a.preparse, 0, input, pos, depth, keep) {
            Ok(m) => {
                lemma_reachable(rules, a.alternatives, 0, input, m.end, depth, keep, None);
                lemma_factor(rules, alts, tails, head, 0, input, m.end, depth, keep, None);
                match seq_sem(rules, head, 0, input, m.end, depth, keep) {
                    Ok(h) => match choice_sem(rules, tails, 0, input, h.end, depth, keep, None) {
                        Ok(t) => lemma_then_assoc(m, h, t),
                        Err(_) => {},
                    },
                    Err(_) => {},
                }
            },
            Err(_) => {},
        }
    } else {
        assert(optimised(a).alternatives =~= a.alternatives);
    }
}

} // verus!
