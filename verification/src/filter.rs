//! Which of the source's repositories are mirrored.
use crate::config::{optional_text, Config};
use crate::names::{before, bytes_before};
use crate::source::order::{
    by_name, law_sorting_keeps_everything, lemma_by_name, lemma_by_name_contains, lemma_sort_unique, lemma_sorted_names_unique, named,
    names_of, sort_by_name, sorted,
};
use crate::source::{views, SourceRepo, SourceRepoView};
use vstd::prelude::*;
use vstd::utf8::encode_utf8;

verus! {

/// What `Regex::new` reports of a pattern: `None` where it compiles, else the error
/// in words.
pub uninterp spec fn regex_error(pattern: Seq<char>) -> Option<Seq<char>>;

/// Whether `Regex::is_match` finds a match of the compiled pattern in the text.
pub uninterp spec fn regex_finds(pattern: Seq<char>, text: Seq<char>) -> bool;

/// `regex::Regex::new`: compiles the pattern, or says why that cannot be done. What
/// it says depends on the pattern alone; it is named, not spelled out.
#[verifier::external_body]
fn compile(pattern: &str) -> (r: Result<(), String>)
    ensures
        match r {
            Ok(_) => regex_error(pattern@) is None,
            Err(e) => regex_error(pattern@) == Some(e@),
        },
{
    regex::Regex::new(pattern).map(|_| ()).map_err(|e| e.to_string())
}

/// `regex::Regex::is_match`, of a pattern that compiles: whether there is a match
/// anywhere in the text. That depends on the pattern and the text alone; it is
/// named, not spelled out.
#[verifier::external_body]
fn is_match(pattern: &str, text: &str) -> (r: bool)
    requires
        regex_error(pattern@) is None,
    ensures
        r == regex_finds(pattern@, text@),
{
    regex::Regex::new(pattern).unwrap().is_match(text)
}

/// Repo selection rules. The patterns in them compile.
#[derive(Debug)]
pub struct Filters {
    including: Option<String>,
    excluding: Option<String>,
    limit: Option<usize>,
    skip_forks: bool,
    skip_archived: bool,
    include_private: bool,
}

/// What selection rules say.
pub ghost struct Rules {
    pub including: Option<Seq<char>>,
    pub excluding: Option<Seq<char>>,
    pub limit: Option<usize>,
    pub skip_forks: bool,
    pub skip_archived: bool,
    pub include_private: bool,
}

/// Why selection rules could not be made.
#[derive(Debug, PartialEq, Eq)]
pub enum FilterError {
    /// `GMS_FILTER_INCLUDE` does not compile.
    Include(String),
    /// `GMS_FILTER_EXCLUDE` does not compile.
    Exclude(String),
}

impl FilterError {
    /// The error in words.
    pub fn message(&self) -> (r: String)
        ensures
            r@ == match self {
                FilterError::Include(e) => "compiling GMS_FILTER_INCLUDE: "@ + e@,
                FilterError::Exclude(e) => "compiling GMS_FILTER_EXCLUDE: "@ + e@,
            },
    {
        match self {
            FilterError::Include(e) => "compiling GMS_FILTER_INCLUDE: ".to_owned().concat(e.as_str()),
            FilterError::Exclude(e) => "compiling GMS_FILTER_EXCLUDE: ".to_owned().concat(e.as_str()),
        }
    }
}

/// The rules that the settings describe.
pub open spec fn configured_rules(cfg: Config) -> Rules {
    Rules {
        including: optional_text(cfg.filter_include),
        excluding: optional_text(cfg.filter_exclude),
        limit: cfg.filter_limit,
        skip_forks: cfg.skip_forks,
        skip_archived: cfg.skip_archived,
        include_private: cfg.include_private,
    }
}

/// Whether the switches admit a repository.
pub open spec fn switches_admit(rules: Rules, r: SourceRepoView) -> bool {
    &&& r.private ==> rules.include_private
    &&& r.fork ==> !rules.skip_forks
    &&& r.archived ==> !rules.skip_archived
}

/// Whether the patterns admit a name.
pub open spec fn patterns_admit(rules: Rules, name: Seq<char>) -> bool {
    &&& rules.including matches Some(pattern) ==> regex_finds(pattern, name)
    &&& rules.excluding matches Some(pattern) ==> !regex_finds(pattern, name)
}

/// Whether the rules keep a repository.
pub open spec fn keeps(rules: Rules, r: SourceRepoView) -> bool {
    switches_admit(rules, r) && patterns_admit(rules, r.name)
}

/// The first repositories by name, as many as the limit allows.
pub open spec fn arranged(limit: Option<usize>, repos: Seq<SourceRepoView>) -> Seq<SourceRepoView> {
    match limit {
        Some(n) if n < by_name(repos).len() => by_name(repos).take(n as int),
        _ => by_name(repos),
    }
}

/// The repositories that the rules keep, in the order in which they stood.
pub open spec fn kept(rules: Rules, repos: Seq<SourceRepoView>) -> Seq<SourceRepoView> {
    repos.filter(|r: SourceRepoView| keeps(rules, r))
}

/// The repositories that the rules select.
pub open spec fn selected(rules: Rules, repos: Seq<SourceRepoView>) -> Seq<SourceRepoView> {
    arranged(rules.limit, kept(rules, repos))
}

/// Whether a pattern, where there is one, compiles.
spec fn compiles(pattern: Option<String>) -> bool {
    pattern matches Some(p) ==> regex_error(p@) is None
}

/// Compiles the pattern of a setting, where one is set.
fn check_pattern(setting: &Option<String>) -> (r: Result<Option<String>, String>)
    ensures
        match r {
            Ok(pattern) => pattern == *setting && compiles(pattern),
            Err(e) => setting matches Some(p) && regex_error(p@) == Some(e@),
        },
{
    match setting {
        Some(pattern) => match compile(pattern.as_str()) {
            Ok(_) => Ok(Some(pattern.clone())),
            Err(e) => Err(e),
        },
        None => Ok(None),
    }
}

impl Filters {
    /// What these rules say.
    pub closed spec fn rules(self) -> Rules {
        Rules {
            including: optional_text(self.including),
            excluding: optional_text(self.excluding),
            limit: self.limit,
            skip_forks: self.skip_forks,
            skip_archived: self.skip_archived,
            include_private: self.include_private,
        }
    }

    #[verifier::type_invariant]
    closed spec fn patterns_compile(self) -> bool {
        compiles(self.including) && compiles(self.excluding)
    }

    /// The rules that the settings describe, once both patterns compile.
    pub fn from_config(cfg: &Config) -> (r: Result<Filters, FilterError>)
        ensures
            match (cfg.filter_include, cfg.filter_exclude) {
                (Some(p), _) if regex_error(p@) is Some => {
                    r matches Err(FilterError::Include(e)) && regex_error(p@) == Some(e@)
                },
                (_, Some(p)) if regex_error(p@) is Some => {
                    r matches Err(FilterError::Exclude(e)) && regex_error(p@) == Some(e@)
                },
                _ => r matches Ok(filters) && filters.rules() == configured_rules(*cfg),
            },
    {
        let including = match check_pattern(&cfg.filter_include) {
            Ok(pattern) => pattern,
            Err(e) => return Err(FilterError::Include(e)),
        };
        let excluding = match check_pattern(&cfg.filter_exclude) {
            Ok(pattern) => pattern,
            Err(e) => return Err(FilterError::Exclude(e)),
        };
        Ok(
            Filters {
                including,
                excluding,
                limit: cfg.filter_limit,
                skip_forks: cfg.skip_forks,
                skip_archived: cfg.skip_archived,
                include_private: cfg.include_private,
            },
        )
    }

    /// Tests whether a repository is kept, given what the patterns found in its name.
    /// Where there is no pattern, what it found does not count.
    pub fn admits(&self, repo: &SourceRepo, included: bool, excluded: bool) -> (r: bool)
        ensures
            r == {
                &&& switches_admit(self.rules(), repo@)
                &&& self.rules().including is Some ==> included
                &&& self.rules().excluding is Some ==> !excluded
            },
    {
        if !self.include_private && repo.private {
            return false;
        }
        if self.skip_forks && repo.fork {
            return false;
        }
        if self.skip_archived && repo.archived {
            return false;
        }
        if self.including.is_some() && !included {
            return false;
        }
        if self.excluding.is_some() && excluded {
            return false;
        }
        true
    }

    /// Sorts the kept repositories by name and cuts the list at the limit.
    pub fn arrange(&self, kept: Vec<SourceRepo>) -> (r: Vec<SourceRepo>)
        ensures
            views(r@) == arranged(self.rules().limit, views(kept@)),
    {
        let mut out = sort_by_name(kept);
        match self.limit {
            Some(limit) => {
                let ghost all = views(out@);
                if limit < out.len() {
                    out.truncate(limit);
                    assert(views(out@) =~= all.take(limit as int));
                }
            },
            None => {},
        }
        out
    }

    /// Apply the filters and return the selected repos, sorted by name. The
    /// quantity limit is applied last so it is deterministic.
    pub fn apply(&self, repos: Vec<SourceRepo>) -> (r: Vec<SourceRepo>)
        ensures
            views(r@) == selected(self.rules(), views(repos@)),
    {
        proof {
            use_type_invariant(self);
        }
        let ghost rules = self.rules();
        let ghost all = views(repos@);
        let mut out: Vec<SourceRepo> = Vec::new();
        proof {
            reveal(Seq::filter);
            assert(all.take(0) =~= Seq::empty());
            assert(views(out@) =~= kept(rules, all.take(0)));
        }
        for repo in it: repos
            invariant
                it.seq() == repos@,
                all == views(repos@),
                rules == self.rules(),
                compiles(self.including),
                compiles(self.excluding),
                views(out@) == kept(rules, all.take(it.index())),
        {
            let ghost at = it.index();
            let ghost before_push = views(out@);
            proof {
                reveal(Seq::filter);
                assert(repo@ == all[at]);
                assert(all.take(at + 1).drop_last() == all.take(at));
                assert(all.take(at + 1).last() == all[at]);
            }
            let included = match &self.including {
                Some(pattern) => is_match(pattern.as_str(), repo.name.as_str()),
                None => true,
            };
            let excluded = match &self.excluding {
                Some(pattern) => is_match(pattern.as_str(), repo.name.as_str()),
                None => false,
            };
            if self.admits(&repo, included, excluded) {
                out.push(repo);
                assert(views(out@) =~= before_push.push(all[at]));
            }
        }
        assert(all.take(all.len() as int) == all);
        self.arrange(out)
    }
}

/// What filtering keeps stands in the sequence and passes the test, and nothing
/// else does.
proof fn lemma_filter_contains(s: Seq<SourceRepoView>, p: spec_fn(SourceRepoView) -> bool, r: SourceRepoView)
    ensures
        s.filter(p).contains(r) <==> s.contains(r) && p(r),
    decreases s.len(),
{
    reveal(Seq::filter);
    if s.len() > 0 {
        let rest = s.drop_last();
        let last = s.last();
        lemma_filter_contains(rest, p, r);
        assert(s == rest.push(last));
        if rest.contains(r) {
            let k = choose|k: int| 0 <= k < rest.len() && rest[k] == r;
            assert(s[k] == r);
        }
        if s.contains(r) && r != last {
            let k = choose|k: int| 0 <= k < s.len() && s[k] == r;
            assert(rest[k] == r);
        }
        if r == last {
            assert(s[s.len() - 1] == r);
        }
        let old = rest.filter(p);
        let new = s.filter(p);
        if p(last) {
            assert(new == old.push(last));
            if old.contains(r) {
                let k = choose|k: int| 0 <= k < old.len() && old[k] == r;
                assert(new[k] == r);
            }
            if new.contains(r) && r != last {
                let k = choose|k: int| 0 <= k < new.len() && new[k] == r;
                assert(old[k] == r);
            }
            assert(new[old.len() as int] == last);
        }
    }
}

/// Filtering by one test and then another leaves no more than the other test alone.
proof fn lemma_filter_twice(
    s: Seq<SourceRepoView>,
    p: spec_fn(SourceRepoView) -> bool,
    q: spec_fn(SourceRepoView) -> bool,
)
    ensures
        s.filter(p).filter(q).len() <= s.filter(q).len(),
    decreases s.len(),
{
    reveal(Seq::filter);
    if s.len() > 0 {
        let rest = s.drop_last();
        lemma_filter_twice(rest, p, q);
        if p(s.last()) {
            assert(rest.filter(p).push(s.last()).drop_last() == rest.filter(p));
        }
    }
}

/// The selection: what is selected was there and is kept by the rules; it is sorted
/// by name and no longer than the limit; without a limit all that is kept is
/// selected; and what a limit leaves out comes after all that is selected.
pub proof fn law_selection(rules: Rules, repos: Seq<SourceRepoView>)
    ensures
        forall|r: SourceRepoView| #[trigger]
            selected(rules, repos).contains(r) ==> repos.contains(r) && keeps(rules, r),
        sorted(selected(rules, repos)),
        rules.limit matches Some(n) ==> selected(rules, repos).len() <= n,
        rules.limit is None ==> forall|r: SourceRepoView|
            repos.contains(r) && keeps(rules, r) ==> #[trigger] selected(rules, repos).contains(r),
        forall|left_out: SourceRepoView, i: int|
            repos.contains(left_out) && keeps(rules, left_out) && !selected(rules, repos).contains(
                left_out,
            ) && 0 <= i < selected(rules, repos).len() ==> !before(
                #[trigger] left_out.name,
                #[trigger] selected(rules, repos)[i].name,
            ),
{
    let p = |r: SourceRepoView| keeps(rules, r);
    let all = kept(rules, repos);
    let order = by_name(all);
    let out = selected(rules, repos);
    lemma_by_name(all);
    assert forall|r: SourceRepoView| #[trigger] out.contains(r) implies repos.contains(r) && keeps(rules, r) by {
        let k = choose|k: int| 0 <= k < out.len() && out[k] == r;
        assert(order[k] == r);
        lemma_by_name_contains(all, r);
        lemma_filter_contains(repos, p, r);
    }
    assert forall|r: SourceRepoView| repos.contains(r) && keeps(rules, r) implies #[trigger] order.contains(
        r,
    ) by {
        lemma_by_name_contains(all, r);
        lemma_filter_contains(repos, p, r);
    }
    assert forall|left_out: SourceRepoView, i: int|
        repos.contains(left_out) && keeps(rules, left_out) && !out.contains(left_out) && 0 <= i
            < out.len() implies !before(#[trigger] left_out.name, #[trigger] out[i].name) by {
        assert(order.contains(left_out));
        let k = choose|k: int| 0 <= k < order.len() && order[k] == left_out;
        if k < out.len() {
            assert(out[k] == left_out);
        }
        assert(order[i] == out[i]);
        assert(!before(order[k].name, order[i].name));
    }
}

/// The selection does not depend on the order in which the forge lists its
/// repositories, as long as it lists each name once; so the limit always cuts off
/// the same ones.
pub proof fn law_selection_ignores_listing_order(
    rules: Rules,
    a: Seq<SourceRepoView>,
    b: Seq<SourceRepoView>,
)
    requires
        forall|name: Seq<char>| #[trigger] named(a, name).len() <= 1,
        forall|name: Seq<char>| #[trigger] named(b, name).len() <= 1,
        forall|r: SourceRepoView| a.contains(r) <==> b.contains(r),
    ensures
        selected(rules, a) == selected(rules, b),
{
    let p = |r: SourceRepoView| keeps(rules, r);
    let x = kept(rules, a);
    let y = kept(rules, b);
    lemma_by_name(x);
    lemma_by_name(y);
    assert forall|name: Seq<char>| #[trigger] named(by_name(x), name) == named(by_name(y), name) by {
        let q = |r: SourceRepoView| r.name == name;
        assert(named(by_name(x), name) == named(x, name));
        assert(named(by_name(y), name) == named(y, name));
        assert(named(a, name).len() <= 1 && named(b, name).len() <= 1);
        lemma_filter_twice(a, p, q);
        lemma_filter_twice(b, p, q);
        let u = named(x, name);
        let v = named(y, name);
        if u.len() > 0 {
            let r = u[0];
            assert(u.contains(r));
            lemma_filter_contains(x, q, r);
            lemma_filter_contains(a, p, r);
            lemma_filter_contains(b, p, r);
            lemma_filter_contains(y, q, r);
            assert(v.contains(r));
            assert(u == v);
        } else if v.len() > 0 {
            let r = v[0];
            assert(v.contains(r));
            lemma_filter_contains(y, q, r);
            lemma_filter_contains(b, p, r);
            lemma_filter_contains(a, p, r);
            lemma_filter_contains(x, q, r);
            assert(u.contains(r));
        } else {
            assert(u == v);
        }
    }
    lemma_sort_unique(by_name(x), by_name(y));
}

/// Filtering by one test and then another keeps as many as filtering by both at once.
proof fn lemma_filter_both(
    s: Seq<SourceRepoView>,
    p: spec_fn(SourceRepoView) -> bool,
    q: spec_fn(SourceRepoView) -> bool,
)
    ensures
        s.filter(p).filter(q).len() == s.filter(|r: SourceRepoView| p(r) && q(r)).len(),
    decreases s.len(),
{
    reveal(Seq::filter);
    if s.len() > 0 {
        let rest = s.drop_last();
        lemma_filter_both(rest, p, q);
        if p(s.last()) {
            assert(rest.filter(p).push(s.last()).drop_last() == rest.filter(p));
        }
    }
}

/// Taking one item out takes it out of what filtering keeps.
proof fn lemma_filter_remove(s: Seq<SourceRepoView>, p: spec_fn(SourceRepoView) -> bool, i: int)
    requires
        0 <= i < s.len(),
    ensures
        s.filter(p).len() == s.remove(i).filter(p).len() + if p(s[i]) {
            1int
        } else {
            0int
        },
{
    reveal(Seq::filter);
    let front = s.take(i);
    let back = s.skip(i + 1);
    assert(s == front.push(s[i]) + back);
    assert(s.remove(i) == front + back);
    assert(front.push(s[i]).drop_last() == front);
    Seq::filter_distributes_over_add(front.push(s[i]), back, p);
    Seq::filter_distributes_over_add(front, back, p);
}

/// Filtering keeps as many of a sequence as of another order of it.
proof fn lemma_filter_permuted(
    a: Seq<SourceRepoView>,
    b: Seq<SourceRepoView>,
    p: spec_fn(SourceRepoView) -> bool,
)
    requires
        a.to_multiset() == b.to_multiset(),
    ensures
        a.filter(p).len() == b.filter(p).len(),
    decreases a.len(),
{
    broadcast use vstd::seq_lib::group_to_multiset_ensures;

    reveal(Seq::filter);
    assert(a.len() == a.to_multiset().len() && b.len() == b.to_multiset().len());
    if a.len() > 0 {
        let x = a.last();
        assert(a.contains(x));
        assert(a.to_multiset().count(x) > 0);
        assert(b.contains(x));
        let i = choose|i: int| 0 <= i < b.len() && b[i] == x;
        assert(a.drop_last() == a.remove(a.len() - 1));
        assert(a.drop_last().to_multiset() == b.remove(i).to_multiset());
        lemma_filter_permuted(a.drop_last(), b.remove(i), p);
        lemma_filter_remove(b, p, i);
    }
}

/// The selected names do not depend on the order in which the forge lists its
/// repositories, even where it lists a name more than once; so the limit always cuts
/// off the same ones.
pub proof fn law_selected_names_ignore_listing_order(
    rules: Rules,
    a: Seq<SourceRepoView>,
    b: Seq<SourceRepoView>,
)
    requires
        a.to_multiset() == b.to_multiset(),
    ensures
        names_of(selected(rules, a)) == names_of(selected(rules, b)),
{
    let p = |r: SourceRepoView| keeps(rules, r);
    let x = by_name(kept(rules, a));
    let y = by_name(kept(rules, b));
    lemma_by_name(kept(rules, a));
    lemma_by_name(kept(rules, b));
    assert forall|name: Seq<char>| #[trigger] named(x, name).len() == named(y, name).len() by {
        let q = |r: SourceRepoView| r.name == name;
        assert(named(x, name) == named(kept(rules, a), name));
        assert(named(y, name) == named(kept(rules, b), name));
        lemma_filter_both(a, p, q);
        lemma_filter_both(b, p, q);
        lemma_filter_permuted(a, b, |r: SourceRepoView| p(r) && q(r));
    }
    lemma_sorted_names_unique(x, y);
    assert(names_of(x).len() == x.len() && names_of(y).len() == y.len());
    if let Some(n) = rules.limit {
        if n < x.len() {
            assert(names_of(x.take(n as int)) =~= names_of(x).take(n as int));
            assert(names_of(y.take(n as int)) =~= names_of(y).take(n as int));
        }
    }
}

/// Filtering keeps all where all pass the test.
proof fn lemma_filter_all(s: Seq<SourceRepoView>, p: spec_fn(SourceRepoView) -> bool)
    requires
        forall|r: SourceRepoView| s.contains(r) ==> #[trigger] p(r),
    ensures
        s.filter(p) == s,
    decreases s.len(),
{
    reveal(Seq::filter);
    if s.len() > 0 {
        let rest = s.drop_last();
        assert forall|r: SourceRepoView| rest.contains(r) implies #[trigger] p(r) by {
            let i = choose|i: int| 0 <= i < rest.len() && rest[i] == r;
            assert(s[i] == r);
        }
        lemma_filter_all(rest, p);
        assert(s.contains(s.last()));
        assert(p(s.last()));
        assert(rest.push(s.last()) == s);
    }
}

/// Selecting from a selection changes nothing.
pub proof fn law_selecting_twice_changes_nothing(rules: Rules, repos: Seq<SourceRepoView>)
    ensures
        selected(rules, selected(rules, repos)) == selected(rules, repos),
{
    let p = |r: SourceRepoView| keeps(rules, r);
    let out = selected(rules, repos);
    law_selection(rules, repos);
    assert forall|r: SourceRepoView| out.contains(r) implies #[trigger] p(r) by {
        assert(selected(rules, repos).contains(r));
    }
    lemma_filter_all(out, p);
    lemma_by_name(out);
    lemma_sort_unique(by_name(out), out);
}

/// With a limit the first of those are selected that are selected without one.
pub proof fn law_limit_takes_the_first(rules: Rules, repos: Seq<SourceRepoView>, limit: usize)
    ensures
        ({
            let unlimited = selected(Rules { limit: None, ..rules }, repos);
            selected(Rules { limit: Some(limit), ..rules }, repos) == unlimited.take(
                if limit < unlimited.len() {
                    limit as int
                } else {
                    unlimited.len() as int
                },
            )
        }),
{
    let without = Rules { limit: None, ..rules };
    let with = Rules { limit: Some(limit), ..rules };
    let unlimited = selected(without, repos);
    lemma_kept_ignores_limit(without, with, repos);
    assert(unlimited.take(unlimited.len() as int) == unlimited);
}

proof fn lemma_kept_ignores_limit(a: Rules, b: Rules, repos: Seq<SourceRepoView>)
    requires
        a == (Rules { limit: a.limit, ..b }),
    ensures
        kept(a, repos) == kept(b, repos),
{
    let p = |r: SourceRepoView| keeps(a, r);
    let q = |r: SourceRepoView| keeps(b, r);
    assert(p =~= q);
}

/// Whether nothing in the rules speaks against a repository.
pub open spec fn nothing_against(rules: Rules, r: SourceRepoView) -> bool {
    &&& !(r.private && !rules.include_private)
    &&& !(r.fork && rules.skip_forks)
    &&& !(r.archived && rules.skip_archived)
    &&& forall|p: Seq<char>| rules.including == Some(p) ==> #[trigger] regex_finds(p, r.name)
    &&& forall|p: Seq<char>| rules.excluding == Some(p) ==> !#[trigger] regex_finds(p, r.name)
}

/// Each rule works by itself. Where forks are skipped no fork is selected, whatever the
/// other rules say; the same holds of archived and of private repositories. Every
/// selected name has a match of the one pattern and none of the other.
pub proof fn law_each_rule_works_by_itself(rules: Rules, repos: Seq<SourceRepoView>, r: SourceRepoView)
    requires
        selected(rules, repos).contains(r),
    ensures
        repos.contains(r),
        rules.skip_forks ==> !r.fork,
        rules.skip_archived ==> !r.archived,
        !rules.include_private ==> !r.private,
        rules.including matches Some(p) ==> regex_finds(p, r.name),
        rules.excluding matches Some(p) ==> !regex_finds(p, r.name),
{
    law_selection(rules, repos);
}

/// A repository that nothing speaks against is selected, unless the limit is used up by
/// repositories of which none has a later name.
pub proof fn law_nothing_else_is_left_out(rules: Rules, repos: Seq<SourceRepoView>, r: SourceRepoView)
    requires
        repos.contains(r),
        r.private ==> rules.include_private,
        r.fork ==> !rules.skip_forks,
        r.archived ==> !rules.skip_archived,
        rules.including matches Some(p) ==> regex_finds(p, r.name),
        rules.excluding matches Some(p) ==> !regex_finds(p, r.name),
    ensures
        selected(rules, repos).contains(r) || {
            &&& rules.limit matches Some(n) && selected(rules, repos).len() == n
            &&& forall|i: int|
                0 <= i < selected(rules, repos).len() ==> !bytes_before(
                    encode_utf8(r.name),
                    encode_utf8(#[trigger] selected(rules, repos)[i].name),
                )
        },
{
    let out = selected(rules, repos);
    law_selection(rules, repos);
    assert(keeps(rules, r));
    if !out.contains(r) {
        let p = |r: SourceRepoView| keeps(rules, r);
        let all = kept(rules, repos);
        lemma_by_name_contains(all, r);
        lemma_filter_contains(repos, p, r);
        assert forall|i: int| 0 <= i < out.len() implies !bytes_before(
            encode_utf8(r.name),
            encode_utf8(#[trigger] out[i].name),
        ) by {
            assert(!before(r.name, out[i].name));
        }
    }
}

/// What is selected stands in the order of the UTF-8 bytes of the names. It is no more
/// than the limit and no more than what nothing speaks against, as often as that is
/// there, and it is all of it or the limit is used up.
pub proof fn law_selection_in_order(rules: Rules, repos: Seq<SourceRepoView>)
    ensures
        forall|i: int, j: int|
            0 <= i < j < selected(rules, repos).len() ==> !bytes_before(
                encode_utf8(#[trigger] selected(rules, repos)[j].name),
                encode_utf8(#[trigger] selected(rules, repos)[i].name),
            ),
        selected(rules, repos).len() == match rules.limit {
            Some(n) if n < repos.filter(|r: SourceRepoView| nothing_against(rules, r)).len() => n as nat,
            _ => repos.filter(|r: SourceRepoView| nothing_against(rules, r)).len(),
        },
{
    let out = selected(rules, repos);
    law_selection(rules, repos);
    assert forall|i: int, j: int| 0 <= i < j < out.len() implies !bytes_before(
        encode_utf8(#[trigger] out[j].name),
        encode_utf8(#[trigger] out[i].name),
    ) by {
        assert(!before(out[j].name, out[i].name));
    }
    let p = |r: SourceRepoView| keeps(rules, r);
    let q = |r: SourceRepoView| nothing_against(rules, r);
    assert forall|r: SourceRepoView| #[trigger] p(r) == q(r) by {
        match rules.including {
            Some(x) => {
                assert(regex_finds(x, r.name) || !regex_finds(x, r.name));
            },
            None => {},
        }
        match rules.excluding {
            Some(x) => {
                assert(regex_finds(x, r.name) || !regex_finds(x, r.name));
            },
            None => {},
        }
    }
    assert(p =~= q);
    law_sorting_keeps_everything(kept(rules, repos));
}

/// The rules of the settings: each is one setting.
pub proof fn law_rules_are_the_settings(cfg: Config)
    ensures
        configured_rules(cfg).skip_forks == cfg.skip_forks,
        configured_rules(cfg).skip_archived == cfg.skip_archived,
        configured_rules(cfg).include_private == cfg.include_private,
        configured_rules(cfg).limit == cfg.filter_limit,
        cfg.filter_include matches Some(p) ==> configured_rules(cfg).including == Some(p@),
        cfg.filter_include is None ==> configured_rules(cfg).including is None,
        cfg.filter_exclude matches Some(p) ==> configured_rules(cfg).excluding == Some(p@),
        cfg.filter_exclude is None ==> configured_rules(cfg).excluding is None,
{
}

} // verus!
