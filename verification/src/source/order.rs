//! Sorting repositories by name, and dropping those whose name came before.
use crate::names::{
    before, bytes_before, lemma_before_asymmetric, lemma_before_irreflexive, lemma_before_total,
    lemma_before_transitive, precedes,
};
use crate::source::{views, SourceRepo, SourceRepoView};
use crate::text::same;
use vstd::prelude::*;
use vstd::utf8::encode_utf8;

verus! {

/// The repositories called `name`, in the order in which they stand.
pub open spec fn named(repos: Seq<SourceRepoView>, name: Seq<char>) -> Seq<SourceRepoView> {
    repos.filter(|r: SourceRepoView| r.name == name)
}

/// No repository comes after one whose name is later in the order of names.
pub open spec fn sorted(repos: Seq<SourceRepoView>) -> bool {
    forall|i: int, j: int|
        0 <= i < j < repos.len() ==> !before(#[trigger] repos[j].name, #[trigger] repos[i].name)
}

/// Whether `out` holds the repositories of `input` sorted by name, those of one
/// name in the order in which they stood.
pub open spec fn stable_sort_of(input: Seq<SourceRepoView>, out: Seq<SourceRepoView>) -> bool {
    sorted(out) && forall|name: Seq<char>| #[trigger] named(out, name) == named(input, name)
}

/// The repositories sorted by name, those of one name in the order in which they
/// stood.
pub open spec fn by_name(input: Seq<SourceRepoView>) -> Seq<SourceRepoView> {
    choose|out: Seq<SourceRepoView>| stable_sort_of(input, out)
}

/// `named` of a sequence that grew by one at its end.
proof fn lemma_named_push(repos: Seq<SourceRepoView>, r: SourceRepoView, name: Seq<char>)
    ensures
        named(repos.push(r), name) == if r.name == name {
            named(repos, name).push(r)
        } else {
            named(repos, name)
        },
{
    reveal(Seq::filter);
    assert(repos.push(r).drop_last() == repos);
}

/// `named` of two sequences put together.
proof fn lemma_named_add(a: Seq<SourceRepoView>, b: Seq<SourceRepoView>, name: Seq<char>)
    ensures
        named(a + b, name) == named(a, name) + named(b, name),
{
    Seq::filter_distributes_over_add(a, b, |r: SourceRepoView| r.name == name);
}

/// `named` of a single repository.
proof fn lemma_named_one(r: SourceRepoView, name: Seq<char>)
    ensures
        named(seq![r], name) == if r.name == name {
            seq![r]
        } else {
            Seq::empty()
        },
{
    reveal(Seq::filter);
    let none = Seq::<SourceRepoView>::empty();
    assert(seq![r] == none.push(r));
    lemma_named_push(none, r, name);
    assert(none.push(r) == seq![r]);
}

/// Where a name does not occur, nothing is called by it.
proof fn lemma_named_absent(repos: Seq<SourceRepoView>, name: Seq<char>)
    requires
        forall|i: int| 0 <= i < repos.len() ==> (#[trigger] repos[i]).name != name,
    ensures
        named(repos, name) == Seq::<SourceRepoView>::empty(),
    decreases repos.len(),
{
    reveal(Seq::filter);
    if repos.len() > 0 {
        let rest = repos.drop_last();
        lemma_named_absent(rest, name);
        assert(repos == rest.push(repos.last()));
        lemma_named_push(rest, repos.last(), name);
    }
}

/// A repository that stands in a sequence is among those of its name, and what is
/// called by a name stands in the sequence under that name.
pub proof fn lemma_named_contains(repos: Seq<SourceRepoView>, r: SourceRepoView)
    ensures
        named(repos, r.name).contains(r) <==> repos.contains(r),
    decreases repos.len(),
{
    reveal(Seq::filter);
    if repos.len() > 0 {
        let rest = repos.drop_last();
        let last = repos.last();
        lemma_named_contains(rest, r);
        assert(repos == rest.push(last));
        lemma_named_push(rest, last, r.name);
        if repos.contains(r) && last != r {
            let k = choose|k: int| 0 <= k < repos.len() && repos[k] == r;
            assert(rest[k] == r);
        }
        if rest.contains(r) {
            let k = choose|k: int| 0 <= k < rest.len() && rest[k] == r;
            assert(repos[k] == r);
        }
        let old = named(rest, r.name);
        let new = named(repos, r.name);
        if last.name == r.name {
            assert(new == old.push(last));
            if old.contains(r) {
                let k = choose|k: int| 0 <= k < old.len() && old[k] == r;
                assert(new[k] == r);
            }
            assert(new[old.len() as int] == last);
            if new.contains(r) && last != r {
                let k = choose|k: int| 0 <= k < new.len() && new[k] == r;
                assert(old[k] == r);
            }
        }
        if last == r {
            assert(repos[repos.len() - 1] == r);
        }
    }
}

/// Two sorted sequences with the same repositories of every name are the same.
pub proof fn lemma_sort_unique(a: Seq<SourceRepoView>, b: Seq<SourceRepoView>)
    requires
        sorted(a),
        sorted(b),
        forall|name: Seq<char>| #[trigger] named(a, name) == named(b, name),
    ensures
        a == b,
    decreases a.len(),
{
    if a.len() == 0 || b.len() == 0 {
        if a.len() > 0 {
            lemma_named_contains(a, a[0]);
            lemma_named_contains(b, a[0]);
            assert(a.contains(a[0]));
            assert(named(a, a[0].name) == named(b, a[0].name));
        }
        if b.len() > 0 {
            lemma_named_contains(a, b[0]);
            lemma_named_contains(b, b[0]);
            assert(b.contains(b[0]));
            assert(named(a, b[0].name) == named(b, b[0].name));
        }
        assert(a == b);
    } else {
        let x = a.last();
        let y = b.last();
        assert(a[a.len() - 1] == x);
        assert(b[b.len() - 1] == y);
        lemma_named_contains(a, x);
        lemma_named_contains(b, x);
        lemma_named_contains(a, y);
        lemma_named_contains(b, y);
        assert(named(a, x.name) == named(b, x.name));
        assert(named(a, y.name) == named(b, y.name));
        assert(b.contains(x) && a.contains(y));
        let i = choose|i: int| 0 <= i < a.len() && a[i] == y;
        let j = choose|j: int| 0 <= j < b.len() && b[j] == x;
        lemma_before_irreflexive(x.name);
        assert(!before(x.name, y.name));
        assert(!before(y.name, x.name));
        lemma_before_total(x.name, y.name);
        assert(x.name == y.name);
        let p = a.drop_last();
        let q = b.drop_last();
        assert(a == p.push(x));
        assert(b == q.push(y));
        lemma_named_push(p, x, x.name);
        lemma_named_push(q, y, x.name);
        assert(named(p, x.name).push(x) == named(q, x.name).push(y));
        assert(named(p, x.name).push(x).last() == x);
        assert(named(q, x.name).push(y).last() == y);
        assert forall|name: Seq<char>| #[trigger] named(p, name) == named(q, name) by {
            lemma_named_push(p, x, name);
            lemma_named_push(q, y, name);
            assert(named(a, name) == named(b, name));
            if name == x.name {
                assert(named(p, name).push(x).drop_last() == named(p, name));
                assert(named(q, name).push(y).drop_last() == named(q, name));
            }
        }
        lemma_sort_unique(p, q);
    }
}

/// `repos` with `r` put after every repository that may stand before it.
spec fn put_in(repos: Seq<SourceRepoView>, r: SourceRepoView) -> Seq<SourceRepoView>
    decreases repos.len(),
{
    if repos.len() > 0 && before(r.name, repos.last().name) {
        put_in(repos.drop_last(), r).push(repos.last())
    } else {
        repos.push(r)
    }
}

proof fn lemma_put_in(repos: Seq<SourceRepoView>, r: SourceRepoView)
    requires
        sorted(repos),
    ensures
        stable_sort_of(repos.push(r), put_in(repos, r)),
        forall|i: int| 0 <= i < put_in(repos, r).len() ==> repos.push(r).contains(#[trigger] put_in(repos, r)[i]),
    decreases repos.len(),
{
    let out = put_in(repos, r);
    if repos.len() > 0 && before(r.name, repos.last().name) {
        let rest = repos.drop_last();
        let last = repos.last();
        lemma_put_in(rest, r);
        let inner = put_in(rest, r);
        assert forall|i: int, j: int| 0 <= i < j < out.len() implies !before(
            #[trigger] out[j].name,
            #[trigger] out[i].name,
        ) by {
            if j == out.len() - 1 {
                assert(out[i] == inner[i]);
                assert(rest.push(r).contains(inner[i]));
                let k = choose|k: int| 0 <= k < rest.push(r).len() && rest.push(r)[k] == inner[i];
                if k < rest.len() {
                    assert(repos[k] == inner[i]);
                    assert(!before(repos[repos.len() - 1].name, repos[k].name));
                } else {
                    lemma_before_asymmetric(r.name, last.name);
                }
            } else {
                assert(out[i] == inner[i] && out[j] == inner[j]);
            }
        }
        assert forall|name: Seq<char>| #[trigger] named(out, name) == named(repos.push(r), name) by {
            lemma_named_push(inner, last, name);
            assert(named(inner, name) == named(rest.push(r), name));
            lemma_named_push(rest, r, name);
            assert(repos == rest.push(last));
            lemma_named_push(rest, last, name);
            lemma_named_push(repos, r, name);
            lemma_before_irreflexive(name);
        }
        assert forall|i: int| 0 <= i < out.len() implies repos.push(r).contains(#[trigger] out[i]) by {
            if i < inner.len() {
                assert(out[i] == inner[i]);
                assert(rest.push(r).contains(inner[i]));
                let k = choose|k: int| 0 <= k < rest.push(r).len() && rest.push(r)[k] == inner[i];
                if k < rest.len() {
                    assert(repos.push(r)[k] == inner[i]);
                } else {
                    assert(repos.push(r)[repos.len() as int] == inner[i]);
                }
            } else {
                assert(repos.push(r)[repos.len() - 1] == last);
            }
        }
    } else {
        assert forall|i: int, j: int| 0 <= i < j < out.len() implies !before(
            #[trigger] out[j].name,
            #[trigger] out[i].name,
        ) by {
            if j == out.len() - 1 {
                assert(out[i] == repos[i]);
                if i < repos.len() - 1 {
                    assert(!before(repos[repos.len() - 1].name, repos[i].name));
                    if before(r.name, repos[i].name) {
                        lemma_before_total(repos[i].name, repos.last().name);
                        if before(repos[i].name, repos.last().name) {
                            lemma_before_transitive(r.name, repos[i].name, repos.last().name);
                        }
                    }
                }
            } else {
                assert(out[i] == repos[i] && out[j] == repos[j]);
            }
        }
    }
}

/// Every sequence of repositories can be sorted by name.
pub proof fn lemma_by_name(input: Seq<SourceRepoView>)
    ensures
        stable_sort_of(input, by_name(input)),
    decreases input.len(),
{
    if input.len() == 0 {
        assert(stable_sort_of(input, input));
    } else {
        let rest = input.drop_last();
        let last = input.last();
        lemma_by_name(rest);
        let out = put_in(by_name(rest), last);
        lemma_put_in(by_name(rest), last);
        assert forall|name: Seq<char>| #[trigger] named(out, name) == named(input, name) by {
            assert(named(out, name) == named(by_name(rest).push(last), name));
            lemma_named_push(by_name(rest), last, name);
            assert(named(by_name(rest), name) == named(rest, name));
            assert(input == rest.push(last));
            lemma_named_push(rest, last, name);
        }
        assert(stable_sort_of(input, out));
    }
}

/// Sorting keeps the repositories that there are, and adds none.
pub proof fn lemma_by_name_contains(input: Seq<SourceRepoView>, r: SourceRepoView)
    ensures
        by_name(input).contains(r) <==> input.contains(r),
{
    lemma_by_name(input);
    lemma_named_contains(input, r);
    lemma_named_contains(by_name(input), r);
    assert(named(by_name(input), r.name) == named(input, r.name));
}

/// Whether no repository of `b` has to come before one of `a`.
spec fn may_precede(a: Seq<SourceRepoView>, b: Seq<SourceRepoView>) -> bool {
    forall|i: int, j: int|
        0 <= i < a.len() && 0 <= j < b.len() ==> !before(#[trigger] b[j].name, #[trigger] a[i].name)
}

/// A name that need not come before the last of a sorted sequence need not come
/// before any of it.
proof fn lemma_not_before_any(repos: Seq<SourceRepoView>, name: Seq<char>)
    requires
        sorted(repos),
        repos.len() > 0 ==> !before(name, repos.last().name),
    ensures
        forall|i: int| 0 <= i < repos.len() ==> !before(name, #[trigger] repos[i].name),
{
    assert forall|i: int| 0 <= i < repos.len() implies !before(name, #[trigger] repos[i].name) by {
        let last = repos.len() - 1;
        if i < last && before(name, repos[i].name) {
            assert(!before(repos[last].name, repos[i].name));
            lemma_before_total(repos[i].name, repos[last].name);
            if before(repos[i].name, repos[last].name) {
                lemma_before_transitive(name, repos[i].name, repos[last].name);
            }
        }
    }
}

/// Moving the last of a sorted sequence to the front of what may follow it.
proof fn lemma_move_last(from: Seq<SourceRepoView>, other: Seq<SourceRepoView>, done: Seq<SourceRepoView>)
    requires
        from.len() > 0,
        sorted(from),
        sorted(other),
        sorted(done),
        may_precede(from, done),
        may_precede(other, done),
        other.len() > 0 ==> !before(from.last().name, other.last().name),
    ensures
        sorted(from.drop_last()),
        sorted(seq![from.last()] + done),
        may_precede(from.drop_last(), seq![from.last()] + done),
        may_precede(other, seq![from.last()] + done),
{
    let x = from.last();
    let rest = from.drop_last();
    let new = seq![x] + done;
    lemma_not_before_any(other, x.name);
    lemma_before_irreflexive(x.name);
    lemma_not_before_any(from, x.name);
    assert forall|i: int, j: int| 0 <= i < rest.len() && 0 <= j < new.len() implies !before(
        #[trigger] new[j].name,
        #[trigger] rest[i].name,
    ) by {
        assert(rest[i] == from[i]);
        if j > 0 {
            assert(new[j] == done[j - 1]);
        }
    }
    assert forall|i: int, j: int| 0 <= i < other.len() && 0 <= j < new.len() implies !before(
        #[trigger] new[j].name,
        #[trigger] other[i].name,
    ) by {
        if j > 0 {
            assert(new[j] == done[j - 1]);
        }
    }
    assert forall|i: int, j: int| 0 <= i < j < new.len() implies !before(
        #[trigger] new[j].name,
        #[trigger] new[i].name,
    ) by {
        assert(new[j] == done[j - 1]);
        if i > 0 {
            assert(new[i] == done[i - 1]);
        } else {
            assert(from[from.len() - 1] == x);
        }
    }
}

/// Moving the last of `l` past `r` keeps the order within each name, as nothing in
/// `r` has its name.
proof fn lemma_named_move_left(
    l: Seq<SourceRepoView>,
    r: Seq<SourceRepoView>,
    done: Seq<SourceRepoView>,
    name: Seq<char>,
)
    requires
        l.len() > 0,
        sorted(r),
        r.len() > 0 ==> before(r.last().name, l.last().name),
    ensures
        named(l.drop_last() + r + (seq![l.last()] + done), name) == named(l + r + done, name),
{
    let x = l.last();
    let rest = l.drop_last();
    assert(l == rest.push(x));
    lemma_named_push(rest, x, name);
    lemma_named_add(l + r, done, name);
    lemma_named_add(l, r, name);
    lemma_named_add(rest + r, seq![x] + done, name);
    lemma_named_add(rest, r, name);
    lemma_named_add(seq![x], done, name);
    lemma_named_one(x, name);
    let none = Seq::<SourceRepoView>::empty();
    if name == x.name {
        assert forall|i: int| 0 <= i < r.len() implies (#[trigger] r[i]).name != name by {
            lemma_before_irreflexive(name);
            assert(!before(r[r.len() - 1].name, r[i].name) || i == r.len() - 1);
        }
        lemma_named_absent(r, name);
        assert(named(rest, name).push(x) + none + named(done, name) == named(rest, name) + none + (seq![x]
            + named(done, name)));
    } else {
        assert(none + named(done, name) == named(done, name));
    }
}

/// Moving the last of `r` keeps the order within each name.
proof fn lemma_named_move_right(
    l: Seq<SourceRepoView>,
    r: Seq<SourceRepoView>,
    done: Seq<SourceRepoView>,
    name: Seq<char>,
)
    requires
        r.len() > 0,
    ensures
        named(l + r.drop_last() + (seq![r.last()] + done), name) == named(l + r + done, name),
{
    assert(l + r.drop_last() + (seq![r.last()] + done) == l + r + done);
}

/// Merges two sorted lists; of one name those of `left` come first.
fn merge(left: Vec<SourceRepo>, right: Vec<SourceRepo>) -> (out: Vec<SourceRepo>)
    requires
        sorted(views(left@)),
        sorted(views(right@)),
    ensures
        stable_sort_of(views(left@) + views(right@), views(out@)),
{
    let ghost all = views(left@) + views(right@);
    let mut left = left;
    let mut right = right;
    let mut last_first: Vec<SourceRepo> = Vec::new();
    let ghost mut l = views(left@);
    let ghost mut r = views(right@);
    let ghost mut done = Seq::<SourceRepoView>::empty();
    assert(l + r + done == all);
    assert(views(last_first@).reverse() =~= done);
    while left.len() > 0 || right.len() > 0
        invariant
            l == views(left@),
            r == views(right@),
            done == views(last_first@).reverse(),
            sorted(l),
            sorted(r),
            sorted(done),
            may_precede(l, done),
            may_precede(r, done),
            forall|name: Seq<char>| named(l + r + done, name) == #[trigger] named(all, name),
        decreases left@.len() + right@.len(),
    {
        let take_left = left.len() > 0 && (right.len() == 0 || precedes(
            right[right.len() - 1].name.as_str(),
            left[left.len() - 1].name.as_str(),
        ));
        let item: SourceRepo;
        if take_left {
            item = left.pop().unwrap();
        } else {
            item = right.pop().unwrap();
        }
        last_first.push(item);
        proof {
            let x = item@;
            let new = seq![x] + done;
            assert(views(last_first@).reverse() =~= new);
            if take_left {
                assert(views(left@) =~= l.drop_last());
                assert(x == l.last());
                if r.len() > 0 {
                    lemma_before_asymmetric(r.last().name, x.name);
                }
                lemma_move_last(l, r, done);
                assert forall|name: Seq<char>| named(l.drop_last() + r + new, name) == #[trigger] named(
                    all,
                    name,
                ) by {
                    lemma_named_move_left(l, r, done, name);
                }
                l = l.drop_last();
            } else {
                assert(views(right@) =~= r.drop_last());
                assert(x == r.last());
                lemma_move_last(r, l, done);
                assert forall|name: Seq<char>| named(l + r.drop_last() + new, name) == #[trigger] named(
                    all,
                    name,
                ) by {
                    lemma_named_move_right(l, r, done, name);
                }
                r = r.drop_last();
            }
            done = new;
        }
    }
    proof {
        assert(l + r + done =~= done);
        assert forall|name: Seq<char>| #[trigger] named(done, name) == named(all, name) by {
            assert(named(l + r + done, name) == named(all, name));
        }
    }
    turn_round(last_first)
}

/// The list from its last item to its first.
fn turn_round(list: Vec<SourceRepo>) -> (out: Vec<SourceRepo>)
    ensures
        views(out@) == views(list@).reverse(),
{
    let ghost all = list@;
    let mut list = list;
    let mut out: Vec<SourceRepo> = Vec::new();
    while list.len() > 0
        invariant
            list@.len() <= all.len(),
            list@ == all.take(list@.len() as int),
            out@ == all.skip(list@.len() as int).reverse(),
        decreases list@.len(),
    {
        let item = list.pop().unwrap();
        out.push(item);
        assert(out@ =~= all.skip(list@.len() as int).reverse());
        assert(list@ =~= all.take(list@.len() as int));
    }
    assert(all.skip(0) == all);
    assert(views(out@) =~= views(all).reverse());
    out
}

/// Sorts by name; repositories of one name keep their order.
pub fn sort_by_name(repos: Vec<SourceRepo>) -> (out: Vec<SourceRepo>)
    ensures
        views(out@) == by_name(views(repos@)),
        stable_sort_of(views(repos@), views(out@)),
    decreases repos@.len(),
{
    let ghost input = views(repos@);
    if repos.len() <= 1 {
        proof {
            assert(stable_sort_of(input, input));
            lemma_by_name(input);
            lemma_sort_unique(by_name(input), input);
        }
        return repos;
    }
    let mut left = repos;
    let mid: usize = left.len() / 2;
    let right = left.split_off(mid);
    let ghost l = views(left@);
    let ghost r = views(right@);
    assert(input =~= l + r);
    let left = sort_by_name(left);
    let right = sort_by_name(right);
    let out = merge(left, right);
    proof {
        let o = views(out@);
        assert forall|name: Seq<char>| #[trigger] named(o, name) == named(input, name) by {
            lemma_named_add(views(left@), views(right@), name);
            lemma_named_add(l, r, name);
            assert(named(views(left@), name) == named(l, name));
            assert(named(views(right@), name) == named(r, name));
            assert(named(o, name) == named(views(left@) + views(right@), name));
        }
        assert(stable_sort_of(input, o));
        lemma_by_name(input);
        assert forall|name: Seq<char>| #[trigger] named(by_name(input), name) == named(o, name) by {
            assert(named(o, name) == named(input, name));
        }
        lemma_sort_unique(by_name(input), o);
    }
    out
}

/// The names of the repositories, in their order.
pub open spec fn names_of(repos: Seq<SourceRepoView>) -> Seq<Seq<char>> {
    repos.map_values(|r: SourceRepoView| r.name)
}

/// A repository of which only the name is known.
spec fn bare(name: Seq<char>) -> SourceRepoView {
    SourceRepoView {
        name,
        clone_url: Seq::empty(),
        private: false,
        fork: false,
        archived: false,
        description: None,
    }
}

spec fn bare_all(repos: Seq<SourceRepoView>) -> Seq<SourceRepoView> {
    repos.map_values(|r: SourceRepoView| bare(r.name))
}

proof fn lemma_named_bare(repos: Seq<SourceRepoView>, name: Seq<char>)
    ensures
        named(bare_all(repos), name) == Seq::new(named(repos, name).len(), |i: int| bare(name)),
    decreases repos.len(),
{
    reveal(Seq::filter);
    if repos.len() > 0 {
        let rest = repos.drop_last();
        let last = repos.last();
        lemma_named_bare(rest, name);
        assert(repos == rest.push(last));
        assert(bare_all(repos) =~= bare_all(rest).push(bare(last.name)));
        lemma_named_push(rest, last, name);
        lemma_named_push(bare_all(rest), bare(last.name), name);
    }
    assert(named(bare_all(repos), name) =~= Seq::new(named(repos, name).len(), |i: int| bare(name)));
}

/// Two sorted sequences that hold every name equally often hold the same names in the
/// same order.
pub proof fn lemma_sorted_names_unique(a: Seq<SourceRepoView>, b: Seq<SourceRepoView>)
    requires
        sorted(a),
        sorted(b),
        forall|name: Seq<char>| #[trigger] named(a, name).len() == named(b, name).len(),
    ensures
        names_of(a) == names_of(b),
{
    let x = bare_all(a);
    let y = bare_all(b);
    assert forall|i: int, j: int| 0 <= i < j < x.len() implies !before(#[trigger] x[j].name, #[trigger] x[i].name) by {
        assert(!before(a[j].name, a[i].name));
    }
    assert forall|i: int, j: int| 0 <= i < j < y.len() implies !before(#[trigger] y[j].name, #[trigger] y[i].name) by {
        assert(!before(b[j].name, b[i].name));
    }
    assert forall|name: Seq<char>| #[trigger] named(x, name) == named(y, name) by {
        lemma_named_bare(a, name);
        lemma_named_bare(b, name);
        assert(named(a, name).len() == named(b, name).len());
    }
    lemma_sort_unique(x, y);
    assert(names_of(a) =~= names_of(b)) by {
        assert(a.len() == x.len() && b.len() == y.len());
        assert forall|i: int| 0 <= i < a.len() implies a[i].name == b[i].name by {
            assert(x[i] == y[i]);
            assert(x[i] == bare(a[i].name) && y[i] == bare(b[i].name));
        }
    }
}

/// `repos` without those whose name is that of the one just before.
pub open spec fn without_repeats(repos: Seq<SourceRepoView>) -> Seq<SourceRepoView>
    decreases repos.len(),
{
    if repos.len() <= 1 {
        repos
    } else {
        let kept = without_repeats(repos.drop_last());
        if repos[repos.len() - 2].name == repos.last().name {
            kept
        } else {
            kept.push(repos.last())
        }
    }
}

/// One more repository of a sorted sequence: dropping repeats leaves the first of each
/// name.
proof fn lemma_repeat_dropped(repos: Seq<SourceRepoView>, name: Seq<char>)
    requires
        sorted(repos),
        repos.len() > 1,
        named(without_repeats(repos.drop_last()), name) == named(repos.drop_last(), name).take(
            if named(repos.drop_last(), name).len() == 0 {
                0
            } else {
                1
            },
        ),
    ensures
        named(without_repeats(repos), name) == named(repos, name).take(
            if named(repos, name).len() == 0 {
                0
            } else {
                1
            },
        ),
{
    let rest = repos.drop_last();
    let last = repos.last();
    let kept = without_repeats(rest);
    assert(repos == rest.push(last));
    assert(rest.last() == repos[repos.len() - 2]);
    lemma_named_push(rest, last, name);
    let old = named(rest, name);
    assert(named(kept, name) == old.take(
        if old.len() == 0 {
            0
        } else {
            1
        },
    ));
    if last.name == name {
        if rest.last().name == name {
            lemma_named_contains(rest, rest.last());
            assert(rest.contains(rest.last()));
            assert(old.len() > 0);
            assert(old.push(last).take(1) == old.take(1));
        } else {
            assert forall|i: int| 0 <= i < rest.len() implies (#[trigger] rest[i]).name != name by {
                assert(rest[i] == repos[i]);
                if i < rest.len() - 1 && rest[i].name == name {
                    assert(!before(repos[rest.len() as int].name, repos[rest.len() - 1].name));
                    assert(!before(repos[rest.len() - 1].name, repos[i].name));
                    lemma_before_total(rest.last().name, name);
                }
            }
            lemma_named_absent(rest, name);
            lemma_named_push(kept, last, name);
            assert(old.take(0) == old);
            assert(old.push(last).take(1) == old.push(last));
        }
    } else if rest.last().name != last.name {
        lemma_named_push(kept, last, name);
    }
}

/// What dropping repeats leaves of a sorted sequence.
proof fn lemma_without_repeats(repos: Seq<SourceRepoView>)
    requires
        sorted(repos),
    ensures
        forall|i: int, j: int|
            0 <= i < j < without_repeats(repos).len() ==> before(
                #[trigger] without_repeats(repos)[i].name,
                #[trigger] without_repeats(repos)[j].name,
            ),
        repos.len() > 0 ==> without_repeats(repos).len() > 0 && without_repeats(repos).last().name
            == repos.last().name,
        forall|name: Seq<char>| #[trigger]
            named(without_repeats(repos), name) == named(repos, name).take(
                if named(repos, name).len() == 0 {
                    0
                } else {
                    1
                },
            ),
    decreases repos.len(),
{
    let out = without_repeats(repos);
    if repos.len() <= 1 {
        assert forall|name: Seq<char>| #[trigger] named(out, name) == named(repos, name).take(
            if named(repos, name).len() == 0 {
                0
            } else {
                1
            },
        ) by {
            if repos.len() == 1 {
                assert(repos == seq![repos[0]]);
                lemma_named_one(repos[0], name);
            } else {
                lemma_named_absent(repos, name);
            }
            assert(named(repos, name).take(named(repos, name).len() as int) == named(repos, name));
        }
    } else {
        let rest = repos.drop_last();
        let last = repos.last();
        let kept = without_repeats(rest);
        lemma_without_repeats(rest);
        assert(repos == rest.push(last));
        assert(rest.last() == repos[repos.len() - 2]);
        assert forall|i: int, j: int| 0 <= i < j < out.len() implies before(
            #[trigger] out[i].name,
            #[trigger] out[j].name,
        ) by {
            if j < kept.len() {
                assert(out[i] == kept[i] && out[j] == kept[j]);
            } else {
                assert(out[i] == kept[i]);
                assert(!before(repos[repos.len() - 1].name, repos[repos.len() - 2].name));
                lemma_before_total(rest.last().name, last.name);
                assert(before(kept.last().name, last.name));
                if i < kept.len() - 1 {
                    assert(before(kept[i].name, kept[kept.len() - 1].name));
                    lemma_before_transitive(kept[i].name, kept.last().name, last.name);
                }
            }
        }
        assert forall|name: Seq<char>| #[trigger] named(out, name) == named(repos, name).take(
            if named(repos, name).len() == 0 {
                0
            } else {
                1
            },
        ) by {
            lemma_repeat_dropped(repos, name);
        }
    }
}

/// A listing holds each name once, in order, and under it the repository that came
/// first.
pub proof fn law_each_name_once(repos: Seq<SourceRepoView>)
    ensures
        forall|i: int, j: int|
            0 <= i < j < without_repeats(by_name(repos)).len() ==> before(
                #[trigger] without_repeats(by_name(repos))[i].name,
                #[trigger] without_repeats(by_name(repos))[j].name,
            ),
        forall|name: Seq<char>| #[trigger]
            named(without_repeats(by_name(repos)), name) == if named(repos, name).len() == 0 {
                Seq::empty()
            } else {
                seq![named(repos, name)[0]]
            },
{
    lemma_by_name(repos);
    let s = by_name(repos);
    lemma_without_repeats(s);
    assert forall|name: Seq<char>| #[trigger] named(without_repeats(s), name) == if named(repos, name).len()
        == 0 {
        Seq::empty()
    } else {
        seq![named(repos, name)[0]]
    } by {
        assert(named(s, name) == named(repos, name));
        if named(repos, name).len() > 0 {
            assert(named(repos, name).take(1) == seq![named(repos, name)[0]]);
        }
    }
}

/// Drops every repository that has the name of the one kept just before.
pub fn drop_repeats(repos: Vec<SourceRepo>) -> (out: Vec<SourceRepo>)
    ensures
        views(out@) == without_repeats(views(repos@)),
{
    let ghost input = views(repos@);
    let mut last_first = turn_round(repos);
    let mut out: Vec<SourceRepo> = Vec::new();
    let ghost mut taken: int = 0;
    proof {
        assert(input.take(0) =~= Seq::<SourceRepoView>::empty());
        assert(views(out@) =~= Seq::<SourceRepoView>::empty());
        assert(views(last_first@) =~= input.skip(0).reverse());
    }
    while last_first.len() > 0
        invariant
            0 <= taken <= input.len(),
            last_first@.len() == input.len() - taken,
            views(last_first@) == input.skip(taken).reverse(),
            views(out@) == without_repeats(input.take(taken)),
            taken > 0 ==> out@.len() > 0 && out@.last().name@ == input[taken - 1].name,
        decreases last_first@.len(),
    {
        let ghost rest = views(last_first@);
        let item = last_first.pop().unwrap();
        let ghost x = item@;
        let repeat = out.len() > 0 && same(out[out.len() - 1].name.as_str(), item.name.as_str());
        proof {
            assert(x == rest[rest.len() - 1]);
            assert(x == input[taken]);
            assert(input.take(taken + 1).drop_last() == input.take(taken));
            assert(views(last_first@) =~= rest.drop_last());
            assert(rest.drop_last() =~= input.skip(taken + 1).reverse());
            if taken == 0 {
                assert(out@.len() == 0);
                assert(input.take(1) =~= seq![x]);
            }
        }
        let ghost kept = views(out@);
        if !repeat {
            out.push(item);
            assert(views(out@) =~= kept.push(x));
        }
        proof {
            if taken == 0 {
                assert(kept.push(x) =~= seq![x]);
            }
            taken = taken + 1;
        }
    }
    assert(input.take(taken) == input);
    out
}

/// Sorting by name keeps everything: the same repositories stand in the order of the
/// UTF-8 bytes of their names, each as often as before.
pub proof fn law_sorting_keeps_everything(repos: Seq<SourceRepoView>)
    ensures
        by_name(repos).to_multiset() == repos.to_multiset(),
        by_name(repos).len() == repos.len(),
        forall|i: int, j: int|
            0 <= i < j < by_name(repos).len() ==> !bytes_before(
                encode_utf8(#[trigger] by_name(repos)[j].name),
                encode_utf8(#[trigger] by_name(repos)[i].name),
            ),
{
    broadcast use vstd::seq_lib::group_to_multiset_ensures;

    let out = by_name(repos);
    lemma_by_name(repos);
    assert forall|i: int, j: int| 0 <= i < j < out.len() implies !bytes_before(
        encode_utf8(#[trigger] out[j].name),
        encode_utf8(#[trigger] out[i].name),
    ) by {
        assert(!before(out[j].name, out[i].name));
    }
    assert forall|r: SourceRepoView| #[trigger] out.to_multiset().count(r) == repos.to_multiset().count(r) by {
        lemma_count_named(out, r);
        lemma_count_named(repos, r);
        assert(named(out, r.name) == named(repos, r.name));
    }
    assert(out.to_multiset() =~= repos.to_multiset());
    assert(out.len() == out.to_multiset().len() && repos.len() == repos.to_multiset().len());
}

/// Sorting by name leaves those of one name in the order in which they stood.
pub proof fn law_sorting_is_stable(repos: Seq<SourceRepoView>, name: Seq<char>)
    ensures
        by_name(repos).filter(|r: SourceRepoView| r.name == name) == repos.filter(
            |r: SourceRepoView| r.name == name,
        ),
{
    lemma_by_name(repos);
    assert(named(by_name(repos), name) == named(repos, name));
}

proof fn lemma_count_named(repos: Seq<SourceRepoView>, r: SourceRepoView)
    ensures
        named(repos, r.name).to_multiset().count(r) == repos.to_multiset().count(r),
    decreases repos.len(),
{
    broadcast use vstd::seq_lib::group_to_multiset_ensures;

    if repos.len() == 0 {
        reveal(Seq::filter);
        assert(named(repos, r.name) == repos);
    } else {
        let rest = repos.drop_last();
        let last = repos.last();
        lemma_count_named(rest, r);
        assert(repos == rest.push(last));
        lemma_named_push(rest, last, r.name);
    }
}

/// Of a list as a forge gives it one repository is left of each name, the first; and
/// the names stand in the order of their UTF-8 bytes.
pub proof fn law_first_of_each_name_is_left(repos: Seq<SourceRepoView>, i: int)
    requires
        0 <= i < repos.len(),
    ensures
        without_repeats(by_name(repos)).contains(repos[i]) || exists|j: int|
            0 <= j < i && (#[trigger] repos[j]).name == repos[i].name,
        exists|k: int|
            0 <= k < without_repeats(by_name(repos)).len() && (#[trigger] without_repeats(
                by_name(repos),
            )[k]).name == repos[i].name,
        forall|k: int|
            0 <= k < without_repeats(by_name(repos)).len() ==> repos.contains(
                #[trigger] without_repeats(by_name(repos))[k],
            ),
        forall|a: int, b: int|
            0 <= a < b < without_repeats(by_name(repos)).len() ==> bytes_before(
                encode_utf8(#[trigger] without_repeats(by_name(repos))[a].name),
                encode_utf8(#[trigger] without_repeats(by_name(repos))[b].name),
            ),
{
    let out = without_repeats(by_name(repos));
    let name = repos[i].name;
    law_each_name_once(repos);
    assert forall|a: int, b: int| 0 <= a < b < out.len() implies bytes_before(
        encode_utf8(#[trigger] out[a].name),
        encode_utf8(#[trigger] out[b].name),
    ) by {
        assert(before(out[a].name, out[b].name));
    }
    lemma_named_contains(repos, repos[i]);
    assert(repos.contains(repos[i]));
    assert(named(repos, name).len() > 0);
    lemma_first_named(repos, name);
    let first = named(repos, name)[0];
    assert(named(out, name) == seq![first]);
    assert(named(out, name)[0] == first);
    assert(named(out, name).contains(first));
    lemma_named_contains(out, first);
    let k = choose|k: int| 0 <= k < out.len() && out[k] == first;
    assert(out[k].name == name);
    assert forall|k: int| 0 <= k < out.len() implies repos.contains(#[trigger] out[k]) by {
        let r = out[k];
        assert(out.contains(r));
        lemma_named_contains(out, r);
        let m = named(out, r.name);
        let u = choose|u: int| 0 <= u < m.len() && m[u] == r;
        assert(named(repos, r.name)[u] == r);
        assert(named(repos, r.name).contains(r));
        lemma_named_contains(repos, r);
    }
}

/// The first of a name stands before all others of that name.
proof fn lemma_first_named(repos: Seq<SourceRepoView>, name: Seq<char>)
    requires
        named(repos, name).len() > 0,
    ensures
        named(repos, name)[0].name == name,
        forall|i: int|
            0 <= i < repos.len() && (#[trigger] repos[i]).name == name ==> repos[i] == named(repos, name)[0]
                || exists|j: int| 0 <= j < i && (#[trigger] repos[j]).name == name,
    decreases repos.len(),
{
    let rest = repos.drop_last();
    let last = repos.last();
    assert(repos == rest.push(last));
    lemma_named_push(rest, last, name);
    if named(rest, name).len() > 0 {
        lemma_first_named(rest, name);
        assert forall|i: int| 0 <= i < repos.len() && (#[trigger] repos[i]).name == name implies repos[i]
            == named(repos, name)[0] || exists|j: int| 0 <= j < i && (#[trigger] repos[j]).name == name by {
            if i < rest.len() {
                assert(rest[i].name == name);
                if rest[i] != named(rest, name)[0] {
                    let j = choose|j: int| 0 <= j < i && (#[trigger] rest[j]).name == name;
                    assert(repos[j].name == name);
                }
            } else {
                let first = named(rest, name)[0];
                assert(named(rest, name).contains(first));
                lemma_named_contains(rest, first);
                let j = choose|j: int| 0 <= j < rest.len() && rest[j] == first;
                assert(repos[j].name == name);
            }
        }
    } else {
        assert forall|i: int| 0 <= i < rest.len() implies (#[trigger] repos[i]).name != name by {
            if rest[i].name == name {
                lemma_named_contains(rest, rest[i]);
                assert(rest.contains(rest[i]));
            }
        }
    }
}

} // verus!
