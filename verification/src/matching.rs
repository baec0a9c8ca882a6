//! Matching profiles to the connected displays: a profile matches when the
//! identifiers of its screens are, counted with multiplicity, those of the
//! connected outputs.

use vstd::prelude::*;
use vstd::multiset::Multiset;

use crate::model::{self, OutputView, RuntimeOutput, ScreenConfig, ScreenView};
use crate::text;

verus! {

broadcast use vstd::seq_lib::group_to_multiset_ensures, vstd::multiset::group_multiset_axioms;

/// The ids of a list of screens.
pub open spec fn screen_ids(screens: Seq<ScreenView>) -> Seq<Seq<char>> {
    screens.map_values(|s: ScreenView| s.id)
}

/// The canonical display ids of a list of outputs.
pub open spec fn output_ids(outs: Seq<OutputView>) -> Seq<Seq<char>> {
    outs.map_values(
        |o: OutputView| model::display_id_of(o.make, o.model, o.serial, o.connector_name),
    )
}

/// The screens of a profile are the connected outputs: their ids are, with
/// multiplicity, the outputs' display ids.
pub open spec fn matches_hardware(outs: Seq<OutputView>, screens: Seq<ScreenView>) -> bool {
    screen_ids(screens).to_multiset() == output_ids(outs).to_multiset()
}

/// The number of times `x` occurs in `v`.
pub fn count_in(v: &Vec<Vec<char>>, x: &Vec<char>) -> (n: usize)
    ensures
        n == text::views(v@).to_multiset().count(x@),
{
    let ghost vv = text::views(v@);
    let mut n: usize = 0;
    for i in 0..v.len()
        invariant
            vv == text::views(v@),
            n == vv.take(i as int).to_multiset().count(x@),
            n <= i,
    {
        assert(vv.take(i + 1) =~= vv.take(i as int).push(vv[i as int]));
        if text::chars_eq(&v[i], x) {
            n = n + 1;
        }
    }
    assert(vv.take(v@.len() as int) =~= vv);
    n
}

/// Whether two lists hold the same sequences the same number of times.
pub fn same_multiset(a: &Vec<Vec<char>>, b: &Vec<Vec<char>>) -> (r: bool)
    ensures
        r == (text::views(a@).to_multiset() == text::views(b@).to_multiset()),
{
    let ghost ma = text::views(a@).to_multiset();
    let ghost mb = text::views(b@).to_multiset();
    for i in 0..a.len()
        invariant
            ma == text::views(a@).to_multiset(),
            mb == text::views(b@).to_multiset(),
            forall|j: int| 0 <= j < i ==> ma.count(#[trigger] text::views(a@)[j]) == mb.count(text::views(a@)[j]),
    {
        if count_in(a, &a[i]) != count_in(b, &a[i]) {
            assert(ma.count(a@[i as int]@) != mb.count(a@[i as int]@));
            return false;
        }
    }
    for i in 0..b.len()
        invariant
            ma == text::views(a@).to_multiset(),
            mb == text::views(b@).to_multiset(),
            forall|j: int| 0 <= j < a@.len() ==> ma.count(#[trigger] text::views(a@)[j]) == mb.count(text::views(a@)[j]),
            forall|j: int| 0 <= j < i ==> ma.count(#[trigger] text::views(b@)[j]) == mb.count(text::views(b@)[j]),
    {
        if count_in(a, &b[i]) != count_in(b, &b[i]) {
            assert(ma.count(b@[i as int]@) != mb.count(b@[i as int]@));
            return false;
        }
    }
    assert forall|x: Seq<char>| ma.count(x) == mb.count(x) by {
        if text::views(a@).contains(x) {
            let j = choose|j: int| 0 <= j < text::views(a@).len() && text::views(a@)[j] == x;
            assert(ma.count(text::views(a@)[j]) == mb.count(text::views(a@)[j]));
        } else if text::views(b@).contains(x) {
            let j = choose|j: int| 0 <= j < text::views(b@).len() && text::views(b@)[j] == x;
            assert(ma.count(text::views(b@)[j]) == mb.count(text::views(b@)[j]));
        }
    }
    assert(ma =~= mb);
    true
}

pub fn screen_id_list(screens: &[ScreenConfig]) -> (r: Vec<Vec<char>>)
    ensures
        text::views(r@) == screen_ids(model::screen_views(screens@)),
{
    let mut r: Vec<Vec<char>> = Vec::new();
    for i in 0..screens.len()
        invariant
            text::views(r@) == screen_ids(model::screen_views(screens@)).take(i as int),
    {
        let ghost old_v = text::views(r@);
        let c = text::chars_of(screens[i].id.as_str());
        r.push(c);
        assert(text::views(r@) =~= old_v.push(c@));
        assert(screen_ids(model::screen_views(screens@))[i as int] == screens@[i as int].id@);
        assert(text::views(r@) =~= screen_ids(model::screen_views(screens@)).take(i + 1));
    }
    assert(screen_ids(model::screen_views(screens@)).take(screens@.len() as int) =~= screen_ids(
        model::screen_views(screens@),
    ));
    r
}

pub fn output_id_list(outs: &Vec<RuntimeOutput>) -> (r: Vec<Vec<char>>)
    ensures
        text::views(r@) == output_ids(model::output_views(outs@)),
{
    let mut r: Vec<Vec<char>> = Vec::new();
    for i in 0..outs.len()
        invariant
            text::views(r@) == output_ids(model::output_views(outs@)).take(i as int),
    {
        let ghost old_v = text::views(r@);
        let id = outs[i].display_id();
        let c = text::chars_of(id.as_str());
        r.push(c);
        assert(text::views(r@) =~= old_v.push(c@));
        assert(output_ids(model::output_views(outs@))[i as int] == c@);
        assert(text::views(r@) =~= output_ids(model::output_views(outs@)).take(i + 1));
    }
    assert(output_ids(model::output_views(outs@)).take(outs@.len() as int) =~= output_ids(
        model::output_views(outs@),
    ));
    r
}

/// Whether the screens of a profile are the connected outputs (see
/// `matches_hardware`).
pub fn screens_match_outputs(outs: &Vec<RuntimeOutput>, screens: &[ScreenConfig]) -> (r: bool)
    ensures
        r == matches_hardware(model::output_views(outs@), model::screen_views(screens@)),
{
    let ids = screen_id_list(screens);
    let by_id = output_id_list(outs);
    same_multiset(&ids, &by_id)
}

/// Some entry has the key `x`.
pub open spec fn has_key(r: Seq<(String, usize)>, x: Seq<char>) -> bool {
    exists|i: int| 0 <= i < r.len() && #[trigger] r[i].0@ == x
}

/// The index of the entry with key `id`.
pub fn find_key(r: &Vec<(String, usize)>, id: &String) -> (f: Option<usize>)
    ensures
        match f {
            Some(i) => i < r@.len() && r@[i as int].0@ == id@,
            None => forall|j: int| 0 <= j < r@.len() ==> r@[j].0@ != id@,
        },
{
    let mut i: usize = 0;
    while i < r.len()
        invariant
            i <= r@.len(),
            forall|j: int| 0 <= j < i ==> r@[j].0@ != id@,
        decreases r.len() - i,
    {
        if r[i].0 == *id {
            return Some(i);
        }
        i = i + 1;
    }
    None
}

/// The ids of a list of screens, each with the number of screens that have
/// it: every id once, with its count.
pub fn screen_multiset(screens: &[ScreenConfig]) -> (r: Vec<(String, usize)>)
    ensures
        forall|i: int, j: int| 0 <= i < j < r@.len() ==> r@[i].0@ != r@[j].0@,
        forall|i: int|
            0 <= i < r@.len() ==> r@[i].1 == screen_ids(model::screen_views(screens@)).to_multiset().count(
                #[trigger] r@[i].0@,
            ),
        forall|x: Seq<char>|
            #[trigger] screen_ids(model::screen_views(screens@)).to_multiset().count(x) > 0
                ==> has_key(r@, x),
        forall|i: int| 0 <= i < r@.len() ==> #[trigger] r@[i].1 > 0,
{
    let ghost ids = screen_ids(model::screen_views(screens@));
    let mut r: Vec<(String, usize)> = Vec::new();
    let mut k: usize = 0;
    assert(ids.take(0).to_multiset() =~= Multiset::<Seq<char>>::empty());
    while k < screens.len()
        invariant
            k <= screens@.len(),
            ids == screen_ids(model::screen_views(screens@)),
            forall|i: int, j: int| 0 <= i < j < r@.len() ==> r@[i].0@ != r@[j].0@,
            forall|i: int|
                0 <= i < r@.len() ==> r@[i].1 == ids.take(k as int).to_multiset().count(
                    #[trigger] r@[i].0@,
                ),
            forall|x: Seq<char>| #[trigger] ids.take(k as int).to_multiset().count(x) > 0 ==> has_key(r@, x),
            r@.len() <= k,
            forall|i: int| 0 <= i < r@.len() ==> #[trigger] r@[i].1 <= k,
            forall|i: int| 0 <= i < r@.len() ==> #[trigger] r@[i].1 > 0,
        decreases screens.len() - k,
    {
        let id = &screens[k].id;
        assert(ids.take(k + 1) =~= ids.take(k as int).push(id@));
        let ghost m = ids.take(k as int).to_multiset();
        let ghost old_r = r@;
        assert(ids.take(k as int).push(id@).to_multiset() =~= m.insert(id@));
        assert(ids.take(k + 1).to_multiset() =~= m.insert(id@));
        match find_key(&r, id) {
            Some(i) => {
                let c = r[i].1;
                assert(c == m.count(id@));
                let key = r[i].0.clone();
                r.set(i, (key, c + 1));
                assert forall|a: int, b: int| 0 <= a < b < r@.len() implies r@[a].0@ != r@[b].0@ by {
                    assert(old_r[a].0@ != old_r[b].0@);
                }
                assert forall|x: Seq<char>|
                    #[trigger] ids.take(k + 1).to_multiset().count(x) > 0 implies has_key(r@, x) by {
                    if x != id@ {
                        assert(ids.take(k as int).to_multiset().count(x) > 0);
                        assert(has_key(old_r, x));
                        let a = choose|a: int| 0 <= a < old_r.len() && #[trigger] old_r[a].0@ == x;
                        assert(r@[a].0@ == x);
                    } else {
                        assert(r@[i as int].0@ == x);
                    }
                }
            },
            None => {
                r.push((id.clone(), 1));
                assert(m.count(id@) == 0);
                assert forall|x: Seq<char>|
                    #[trigger] ids.take(k + 1).to_multiset().count(x) > 0 implies has_key(r@, x) by {
                    if x != id@ {
                        assert(ids.take(k as int).to_multiset().count(x) > 0);
                        assert(has_key(old_r, x));
                        let a = choose|a: int| 0 <= a < old_r.len() && #[trigger] old_r[a].0@ == x;
                        assert(r@[a].0@ == x);
                    } else {
                        assert(r@[old_r.len() as int].0@ == x);
                    }
                }
            },
        }
        k = k + 1;
    }
    assert(ids.take(screens@.len() as int) =~= ids);
    r
}

} // verus!
