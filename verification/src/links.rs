//! The links of the page on display, found by their two-letter labels.

use vstd::prelude::*;
use crate::gemtext::{Link, LinkView};

verus! {

/// The map that inserting `entries` one after the other, each under its
/// label, makes: a later entry replaces an earlier one with the same label.
pub open spec fn table_of(entries: Seq<LinkView>) -> Map<Seq<char>, LinkView>
    decreases entries.len(),
{
    if entries.len() == 0 {
        Map::empty()
    } else {
        table_of(entries.drop_last()).insert(entries.last().f_char, entries.last())
    }
}

/// The views of a sequence of links.
pub open spec fn link_views(v: Seq<Link>) -> Seq<LinkView> {
    v.map_values(|l: Link| l@)
}

/// A copy of `l`.
pub fn clone_link(l: &Link) -> (r: Link)
    ensures
        r@ == l@,
{
    let alt = match &l.alt {
        Some(a) => Some(a.clone()),
        None => None,
    };
    Link { alt, link: l.link.clone(), f_char: l.f_char.clone(), is_relative: l.is_relative }
}

/// Links by label, as a map: inserting under a label that is there already
/// replaces its link.
pub struct LinkTable {
    entries: Vec<Link>,
}

impl View for LinkTable {
    type V = Map<Seq<char>, LinkView>;

    closed spec fn view(&self) -> Map<Seq<char>, LinkView> {
        table_of(link_views(self.entries@))
    }
}

impl LinkTable {
    /// An empty table.
    pub fn new() -> (t: Self)
        ensures
            t@ == Map::<Seq<char>, LinkView>::empty(),
    {
        let t = LinkTable { entries: Vec::new() };
        assert(link_views(t.entries@) =~= Seq::<LinkView>::empty());
        t
    }

    /// Removes every link.
    pub fn clear(&mut self)
        ensures
            final(self)@ == Map::<Seq<char>, LinkView>::empty(),
    {
        self.entries.clear();
        assert(link_views(self.entries@) =~= Seq::<LinkView>::empty());
    }

    /// Puts `link` under its label.
    pub fn insert(&mut self, link: Link)
        ensures
            final(self)@ == old(self)@.insert(link@.f_char, link@),
    {
        let ghost before = link_views(self.entries@);
        let ghost lv = link@;
        self.entries.push(link);
        assert(link_views(self.entries@) =~= before.push(lv));
        assert(link_views(self.entries@).drop_last() =~= before);
    }

    /// The link under `key`, if there is one.
    pub fn get(&self, key: &String) -> (r: Option<&Link>)
        ensures
            r is Some <==> self@.contains_key(key@),
            r matches Some(l) ==> l@ == self@[key@],
    {
        let ghost vs = link_views(self.entries@);
        let mut i = self.entries.len();
        assert(vs.take(i as int) == vs);
        while i > 0
            invariant
                i <= self.entries@.len(),
                vs == link_views(self.entries@),
                table_of(vs).contains_key(key@) == table_of(vs.take(i as int)).contains_key(
                    key@,
                ),
                table_of(vs).contains_key(key@) ==> table_of(vs)[key@] == table_of(
                    vs.take(i as int),
                )[key@],
            decreases i,
        {
            let ghost pre = vs.take(i as int);
            assert(pre.drop_last() == vs.take(i - 1));
            assert(pre.last() == self.entries@[i - 1]@);
            if self.entries[i - 1].f_char == *key {
                return Some(&self.entries[i - 1]);
            }
            i = i - 1;
        }
        assert(vs.take(0) == Seq::<LinkView>::empty());
        None
    }
}

/// What a lookup gives back after an insert: the inserted link under its
/// own label, and the earlier content under every other label.
pub proof fn lemma_get_after_insert(m: Map<Seq<char>, LinkView>, l: LinkView, key: Seq<char>)
    ensures
        m.insert(l.f_char, l).contains_key(l.f_char),
        m.insert(l.f_char, l)[l.f_char] == l,
        key != l.f_char ==> (m.insert(l.f_char, l).contains_key(key) == m.contains_key(key)),
        key != l.f_char && m.contains_key(key) ==> m.insert(l.f_char, l)[key] == m[key],
{
}

} // verus!
