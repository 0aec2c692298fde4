use vstd::prelude::*;

verus! {

use crate::text::chars_of;

/// A handler that tags call by name. It receives the name it was called
/// under, so that one handler can serve several names, and the argument
/// of the tag (empty where the tag has none). It may keep state from one
/// call to the next; an `Err` aborts the render with its message.
pub trait PlaceholderFunction {
    /// Called for each tag that names this handler: returns the text that
    /// replaces the tag, or a message that fails the render.
    fn placeholder_fn_handler<'a>(&mut self, name: &'a str, arg: &'a str) -> Result<String, String>;
}

/// A handler as the registry owns it: the renderer takes handlers in this
/// wrapper, `Handler(Box::new(h))`, and its contracts speak of them so.
pub struct Handler(pub Box<dyn PlaceholderFunction>);

/// A named handler.
pub type Entry<'a> = (&'a str, Handler);

/// The names of a list of entries, in order.
pub open spec fn names(s: Seq<Entry>) -> Seq<Seq<char>> {
    s.map_values(|e: Entry| e.0@)
}

/// No name occurs twice.
pub open spec fn names_unique(s: Seq<Entry>) -> bool {
    forall|i: int, j: int| 0 <= i < j < s.len() ==> #[trigger] s[i].0@ != #[trigger] s[j].0@
}

/// Whether `a` and `b` hold the same characters.
pub fn str_eq(a: &str, b: &str) -> (r: bool)
    ensures
        r == (a@ == b@),
{
    let x = chars_of(a);
    let y = chars_of(b);
    if x.len() != y.len() {
        return false;
    }
    let mut i: usize = 0;
    while i < x.len()
        invariant
            x@ == a@,
            y@ == b@,
            x@.len() == y@.len(),
            i <= x@.len(),
            forall|j: int| 0 <= j < i ==> x@[j] == y@[j],
        decreases x@.len() - i,
    {
        if x[i] != y[i] {
            return false;
        }
        i = i + 1;
    }
    assert(a@ =~= b@);
    true
}

/// The index of the entry named `name`, if there is one.
pub fn find_entry(entries: &Vec<Entry>, name: &str) -> (r: Option<usize>)
    ensures
        r matches Some(i) ==> i < entries@.len() && entries@[i as int].0@ == name@,
        r is None ==> !names(entries@).contains(name@),
{
    let mut i: usize = 0;
    while i < entries.len()
        invariant
            i <= entries@.len(),
            forall|j: int| 0 <= j < i ==> entries@[j].0@ != name@,
        decreases entries@.len() - i,
    {
        if str_eq(entries[i].0, name) {
            return Some(i);
        }
        i = i + 1;
    }
    assert forall|j: int| 0 <= j < names(entries@).len() implies names(entries@)[j] != name@ by {
        assert(entries@[j].0@ != name@);
    }
    None
}

/// The set of names registered in `s`.
pub open spec fn name_set(s: Seq<Entry>) -> Set<Seq<char>> {
    names(s).to_set()
}

/// The handler bound to each name by a list of entries: later entries
/// replace earlier ones of the same name.
pub open spec fn reg_of(s: Seq<Entry>) -> Map<Seq<char>, Handler>
    decreases s.len(),
{
    if s.len() == 0 {
        Map::empty()
    } else {
        reg_of(s.drop_last()).insert(s.last().0@, s.last().1)
    }
}

/// Adding an element at the end of a sequence adds it to its set.
pub proof fn lemma_to_set_push(s: Seq<Seq<char>>, x: Seq<char>)
    ensures
        s.push(x).to_set() == s.to_set().insert(x),
{
    assert forall|k: Seq<char>| s.push(x).to_set().contains(k) <==> s.to_set().insert(x).contains(k) by {
        if s.to_set().contains(k) {
            let j = choose|j: int| 0 <= j < s.len() && s[j] == k;
            assert(s.push(x)[j] == k);
        }
        if k == x {
            assert(s.push(x)[s.len() as int] == k);
        }
        if s.push(x).to_set().contains(k) {
            let j = choose|j: int| 0 <= j < s.push(x).len() && s.push(x)[j] == k;
            if j < s.len() {
                assert(s[j] == k);
            }
        }
    }
    assert(s.push(x).to_set() =~= s.to_set().insert(x));
}

/// The names bound by a list of entries are its names.
pub proof fn lemma_reg_dom(s: Seq<Entry>)
    ensures
        reg_of(s).dom() == name_set(s),
    decreases s.len(),
{
    if s.len() > 0 {
        lemma_reg_dom(s.drop_last());
        assert(names(s) =~= names(s.drop_last()).push(s.last().0@));
        lemma_to_set_push(names(s.drop_last()), s.last().0@);
        assert(reg_of(s).dom() =~= name_set(s));
    }
}

/// Replacing the handler of an entry, its name kept, rebinds that name.
pub proof fn lemma_reg_update(s: Seq<Entry>, i: int, h: Handler)
    requires
        0 <= i < s.len(),
        names_unique(s),
    ensures
        reg_of(s.update(i, (s[i].0, h))) == reg_of(s).insert(s[i].0@, h),
    decreases s.len(),
{
    let t = s.update(i, (s[i].0, h));
    if i == s.len() - 1 {
        assert(t.drop_last() =~= s.drop_last());
        assert(reg_of(t) =~= reg_of(s).insert(s[i].0@, h));
    } else {
        assert(t.drop_last() =~= s.drop_last().update(i, (s[i].0, h)));
        lemma_reg_update(s.drop_last(), i, h);
        assert(s[i].0@ != s.last().0@);
        assert(reg_of(t) =~= reg_of(s).insert(s[i].0@, h));
    }
}

/// Registers `f` under `name` in `entries`: the entry of that name gets the
/// new handler, in place; where there is none, the new entry goes at the end.
pub fn put_entry<'a>(entries: &mut Vec<Entry<'a>>, name: &'a str, f: Handler)
    requires
        names_unique(old(entries)@),
    ensures
        names_unique(final(entries)@),
        name_set(final(entries)@) == name_set(old(entries)@).insert(name@),
        reg_of(final(entries)@) == reg_of(old(entries)@).insert(name@, f),
        names(old(entries)@).contains(name@) ==> exists|i: int|
            0 <= i < old(entries)@.len() && old(entries)@[i].0@ == name@ && final(entries)@ == old(
                entries,
            )@.update(i, (old(entries)@[i].0, f)),
        !names(old(entries)@).contains(name@) ==> final(entries)@ == old(entries)@.push((name, f)),
{
    let ghost s = entries@;
    match find_entry(entries, name) {
        Some(i) => {
            let (kept, _) = entries.remove(i);
            entries.insert(i, (kept, f));
            proof {
                assert(entries@ =~= s.update(i as int, (s[i as int].0, f)));
                assert(names(entries@) =~= names(s));
                assert forall|a: int, b: int| 0 <= a < b < entries@.len() implies #[trigger] entries@[a].0@
                    != #[trigger] entries@[b].0@ by {
                    assert(entries@[a].0@ == s[a].0@);
                    assert(entries@[b].0@ == s[b].0@);
                }
                assert(names(s)[i as int] == name@);
                assert(name_set(entries@) =~= name_set(s).insert(name@));
                lemma_reg_update(s, i as int, f);
            }
        },
        None => {
            entries.push((name, f));
            proof {
                assert(names(entries@) =~= names(s).push(name@));
                lemma_to_set_push(names(s), name@);
                assert forall|a: int, b: int| 0 <= a < b < entries@.len() implies #[trigger] entries@[a].0@
                    != #[trigger] entries@[b].0@ by {
                    if b == entries@.len() - 1 {
                        assert(names(s)[a] == s[a].0@);
                    }
                }
                assert(entries@.drop_last() =~= s);
            }
        },
    }
}

} // verus!
