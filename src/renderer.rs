use vstd::prelude::*;

verus! {

use crate::registry::{
    Entry,
    Handler,
    PlaceholderFunction,
    find_entry,
    name_set,
    names,
    names_unique,
    put_entry,
    reg_of,
};
use crate::scanner::{
    PlaceholderExpr,
    char_spans,
    fits_usize,
    is_scan_of,
    lemma_spans_well_formed,
    scan_spans,
    scan_tags,
    span_content,
    spans_ordered,
};
use crate::text::{decimal, decimal_string, first_index, split_once};

/// The name and the argument that a tag's content calls: split at the first
/// space, or the whole content with an empty argument where it has none.
pub open spec fn invocation(c: Seq<char>) -> (Seq<char>, Seq<char>) {
    let k = first_index(c, ' ');
    if k < c.len() {
        (c.subrange(0, k as int), c.subrange(k + 1 as int, c.len() as int))
    } else {
        (c, Seq::empty())
    }
}

/// The name called by the tag of `t` spanning `span`.
pub open spec fn tag_name(t: Seq<char>, span: (nat, nat)) -> Seq<char> {
    invocation(span_content(t, span)).0
}

/// Each of the first `n` tags calls a name in `known`.
pub open spec fn known_upto(t: Seq<char>, spans: Seq<(nat, nat)>, known: Set<Seq<char>>, n: int) -> bool {
    forall|j: int| 0 <= j < n ==> known.contains(tag_name(t, #[trigger] spans[j]))
}

/// Where the text between the tags before tag `k` and that tag begins.
pub open spec fn prev_end(spans: Seq<(nat, nat)>, k: int) -> nat {
    if k <= 0 {
        0
    } else {
        spans[k - 1].1
    }
}

/// The output up to the end of the `n`-th tag: the text before each tag,
/// then what replaced the tag.
pub open spec fn assembled_prefix(t: Seq<char>, spans: Seq<(nat, nat)>, outs: Seq<Seq<char>>, n: nat) -> Seq<char>
    decreases n,
{
    if n == 0 {
        Seq::empty()
    } else {
        assembled_prefix(t, spans, outs, (n - 1) as nat) + t.subrange(
            prev_end(spans, n - 1) as int,
            spans[n - 1].0 as int,
        ) + outs[n - 1]
    }
}

/// `t` with the tag spanning `spans[k]` replaced by `outs[k]`, for each `k`.
pub open spec fn assembled(t: Seq<char>, spans: Seq<(nat, nat)>, outs: Seq<Seq<char>>) -> Seq<char> {
    assembled_prefix(t, spans, outs, spans.len()) + t.subrange(
        prev_end(spans, spans.len() as int) as int,
        t.len() as int,
    )
}

/// Why a render failed.
#[derive(Debug, Clone, Eq, PartialEq, Ord, PartialOrd, Hash)]
pub enum RenderError<'a> {
    /// A tag called a name that no handler is registered under.
    UnknownFunction(PlaceholderExpr<'a>),
    /// A handler failed: the name it was called under, and its message.
    FunctionError(&'a str, String),
}

/// The description of an error, for people to read.
pub open spec fn error_message(e: RenderError) -> Seq<char> {
    match e {
        RenderError::UnknownFunction(p) => "Unknown function at char "@ + decimal(p.start_idx as nat)
            + " in placeholder content: '"@ + p.content@ + "'"@,
        RenderError::FunctionError(name, err) => "Error in placeholder function "@ + name@ + ": '"@
            + err@ + "'"@,
    }
}

impl<'a> RenderError<'a> {
    /// Describes the error: where an unknown name was called, or which
    /// handler failed and with what message.
    pub fn to_string(&self) -> (r: String)
        ensures
            r@ == error_message(*self),
    {
        match self {
            RenderError::UnknownFunction(p) => {
                let mut r = String::from_str("Unknown function at char ");
                r.append(decimal_string(p.start_idx).as_str());
                r.append(" in placeholder content: '");
                r.append(p.content);
                r.append("'");
                r
            },
            RenderError::FunctionError(name, err) => {
                let mut r = String::from_str("Error in placeholder function ");
                r.append(name);
                r.append(": '");
                r.append(err.as_str());
                r.append("'");
                r
            },
        }
    }
}

/// What a render of template `t`, whose tags are `tags`, against a registry
/// of the names `known`, may return: the first tag whose name is unknown
/// fails the render with that tag; a handler's error fails it with the
/// handler's name; otherwise the output is the template with each tag
/// replaced by what its handler returned.
pub open spec fn render_outcome(
    t: Seq<char>,
    tags: Seq<PlaceholderExpr>,
    known: Set<Seq<char>>,
    r: Result<String, RenderError>,
) -> bool {
    let spans = scan_spans(t);
    match r {
        Ok(out) => {
            &&& known_upto(t, spans, known, spans.len() as int)
            &&& exists|outs: Seq<Seq<char>>|
                outs.len() == spans.len() && out@ == #[trigger] assembled(t, spans, outs)
        },
        Err(RenderError::UnknownFunction(p)) => exists|u: int|
            {
                &&& 0 <= u < spans.len()
                &&& known_upto(t, spans, known, u)
                &&& !known.contains(tag_name(t, #[trigger] spans[u]))
                &&& p == tags[u]
            },
        Err(RenderError::FunctionError(name, _)) => exists|j: int|
            {
                &&& 0 <= j < spans.len()
                &&& known_upto(t, spans, known, j + 1)
                &&& name@ == tag_name(t, #[trigger] spans[j])
            },
    }
}

/// No tag of `t` calls `name`.
pub open spec fn never_called(t: Seq<char>, name: Seq<char>) -> bool {
    forall|m: int| 0 <= m < scan_spans(t).len() ==> tag_name(t, #[trigger] scan_spans(t)[m]) != name
}

/// With no tags, the assembled output is the template itself.
pub proof fn lemma_assembled_no_tags(t: Seq<char>, outs: Seq<Seq<char>>)
    ensures
        assembled(t, Seq::empty(), outs) == t,
{
    assert(assembled(t, Seq::empty(), outs) =~= t);
}

/// Splits a tag's content into the name it calls and its argument.
pub fn split_invocation<'a>(content: &'a str) -> (r: (&'a str, &'a str))
    ensures
        (r.0@, r.1@) == invocation(content@),
{
    match split_once(content, ' ') {
        Some(parts) => parts,
        None => {
            proof {
                reveal_strlit("");
            }
            (content, "")
        },
    }
}

/// The template with the tag at each character span of `spans` replaced by
/// the output at the same index.
pub fn assemble(template: &str, spans: &Vec<(usize, usize)>, outputs: &Vec<String>) -> (r: String)
    requires
        outputs@.len() == spans@.len(),
        spans_ordered(char_spans(spans@), template@.len()),
    ensures
        r@ == assembled(template@, char_spans(spans@), outputs@.map_values(|o: String| o@)),
{
    let ghost t = template@;
    let ghost sp = char_spans(spans@);
    let ghost outs = outputs@.map_values(|o: String| o@);
    let n = template.unicode_len();
    let mut out = String::new();
    let mut last_end: usize = 0;
    let mut k: usize = 0;
    while k < spans.len()
        invariant
            t == template@,
            sp == char_spans(spans@),
            outs == outputs@.map_values(|o: String| o@),
            outputs@.len() == spans@.len(),
            spans_ordered(sp, t.len()),
            k <= spans@.len(),
            last_end == prev_end(sp, k as int),
            last_end <= t.len(),
            out@ == assembled_prefix(t, sp, outs, k as nat),
        decreases spans@.len() - k,
    {
        assert(sp[k as int] == (spans@[k as int].0 as nat, spans@[k as int].1 as nat));
        if k > 0 {
            assert(sp[k - 1] == (spans@[k - 1].0 as nat, spans@[k - 1].1 as nat));
        }
        let piece = template.substring_char(last_end, spans[k].0);
        out.append(piece);
        out.append(outputs[k].as_str());
        last_end = spans[k].1;
        k = k + 1;
    }
    let tail = template.substring_char(last_end, n);
    out.append(tail);
    out
}

/// Calls the handler of entry `i` with `name` and `arg`; the other entries
/// and all names stay.
fn call_entry(entries: &mut Vec<Entry>, i: usize, name: &str, arg: &str) -> (r: Result<String, String>)
    requires
        i < old(entries)@.len(),
        names_unique(old(entries)@),
    ensures
        final(entries)@.len() == old(entries)@.len(),
        final(entries)@[i as int].0 == old(entries)@[i as int].0,
        forall|j: int| 0 <= j < old(entries)@.len() && j != i ==> final(entries)@[j] == old(entries)@[j],
        names(final(entries)@) == names(old(entries)@),
        names_unique(final(entries)@),
{
    let ghost before = entries@;
    let mut entry = entries.remove(i);
    let res = entry.1.0.placeholder_fn_handler(name, arg);
    entries.insert(i, entry);
    proof {
        assert(names(entries@) =~= names(before));
        assert forall|a: int, b: int| 0 <= a < b < entries@.len() implies #[trigger] entries@[a].0@
            != #[trigger] entries@[b].0@ by {
            assert(names(entries@)[a] == names(before)[a]);
            assert(names(entries@)[b] == names(before)[b]);
        }
    }
    res
}

/// Renders templates: holds the template, its tags and the registry of
/// handlers.
pub struct TemplateRenderer<'a> {
    template_str: &'a str,
    placeholders: Vec<PlaceholderExpr<'a>>,
    spans: Vec<(usize, usize)>,
    placeholder_functions: Vec<Entry<'a>>,
}

impl<'a> Default for TemplateRenderer<'a> {
    /// The same as [`TemplateRenderer::new`].
    fn default() -> (r: Self)
        ensures
            r.wf(),
            r.template() == Seq::<char>::empty(),
            r.tags() == Seq::<PlaceholderExpr>::empty(),
            r.entries() == Seq::<Entry>::empty(),
    {
        TemplateRenderer::new()
    }
}

impl<'a> TemplateRenderer<'a> {
    /// The template's text.
    pub closed spec fn template(&self) -> Seq<char> {
        self.template_str@
    }

    /// The tags of the template, as last scanned.
    pub closed spec fn tags(&self) -> Seq<PlaceholderExpr<'a>> {
        self.placeholders@
    }

    /// The registered handlers with their names, in the order registered.
    pub closed spec fn entries(&self) -> Seq<Entry<'a>> {
        self.placeholder_functions@
    }

    /// The names that handlers are registered under.
    pub open spec fn registered(&self) -> Set<Seq<char>> {
        name_set(self.entries())
    }

    /// The handler bound to each registered name.
    pub open spec fn registry(&self) -> Map<Seq<char>, Handler> {
        reg_of(self.entries())
    }

    /// The tags are those of the template, and each name is registered once.
    pub closed spec fn wf(&self) -> bool {
        &&& fits_usize(self.template_str@)
        &&& is_scan_of(self.template_str@, self.placeholders@)
        &&& char_spans(self.spans@) == scan_spans(self.template_str@)
        &&& names_unique(self.placeholder_functions@)
    }

    /// A renderer with an empty template and no handlers.
    pub fn new() -> (r: Self)
        ensures
            r.wf(),
            r.template() == Seq::<char>::empty(),
            r.tags() == Seq::<PlaceholderExpr>::empty(),
            r.entries() == Seq::<Entry>::empty(),
    {
        proof {
            reveal_strlit("");
        }
        let (placeholders, spans) = scan_tags("");
        let r = TemplateRenderer { template_str: "", placeholders, spans, placeholder_functions: Vec::new() };
        proof {
            assert(r.placeholders@ =~= Seq::<PlaceholderExpr>::empty());
            assert(r.placeholder_functions@ =~= Seq::<Entry>::empty());
        }
        r
    }

    /// A renderer for `inp_str`, with no handlers.
    pub fn with_template(inp_str: &'a str) -> (r: Self)
        requires
            fits_usize(inp_str@),
        ensures
            r.wf(),
            r.template() == inp_str@,
            is_scan_of(inp_str@, r.tags()),
            r.entries() == Seq::<Entry>::empty(),
    {
        let (placeholders, spans) = scan_tags(inp_str);
        let r = TemplateRenderer { template_str: inp_str, placeholders, spans, placeholder_functions: Vec::new() };
        proof {
            assert(r.placeholder_functions@ =~= Seq::<Entry>::empty());
        }
        r
    }

    /// Replaces the template, and its tags with those of the new one; the
    /// handlers stay as they are.
    pub fn set_template(&mut self, inp_str: &'a str)
        requires
            old(self).wf(),
            fits_usize(inp_str@),
        ensures
            final(self).wf(),
            final(self).template() == inp_str@,
            is_scan_of(inp_str@, final(self).tags()),
            final(self).entries() == old(self).entries(),
    {
        let (placeholders, spans) = scan_tags(inp_str);
        self.template_str = inp_str;
        self.placeholders = placeholders;
        self.spans = spans;
    }

    /// Registers `thefn` under `name`: the entry of that name gets `thefn`
    /// in place of its handler; where there is none, a new entry is added
    /// at the end. The other entries stay.
    pub fn set_placeholder_fn(&mut self, name: &'a str, thefn: Handler)
        requires
            old(self).wf(),
        ensures
            final(self).wf(),
            final(self).template() == old(self).template(),
            final(self).tags() == old(self).tags(),
            final(self).registered() == old(self).registered().insert(name@),
            final(self).registry() == old(self).registry().insert(name@, thefn),
            old(self).registered().contains(name@) ==> exists|i: int|
                0 <= i < old(self).entries().len() && old(self).entries()[i].0@ == name@
                    && final(self).entries() == old(self).entries().update(i, (old(self).entries()[i].0, thefn)),
            !old(self).registered().contains(name@)
                ==> final(self).entries() == old(self).entries().push((name, thefn)),
    {
        put_entry(&mut self.placeholder_functions, name, thefn);
    }

    /// The template's text.
    pub fn template_str(&self) -> (r: &'a str)
        ensures
            r@ == self.template(),
    {
        self.template_str
    }

    /// The tags of the template.
    pub fn placeholders(&self) -> (r: &Vec<PlaceholderExpr<'a>>)
        ensures
            r@ == self.tags(),
    {
        &self.placeholders
    }

    /// Registers each named handler of `map`, in order, replacing handlers
    /// of the same names; of two entries with one name the later one stays.
    pub fn append_placeholders(&mut self, map: Vec<Entry<'a>>)
        requires
            old(self).wf(),
        ensures
            final(self).wf(),
            final(self).template() == old(self).template(),
            final(self).tags() == old(self).tags(),
            final(self).registered() == old(self).registered() + name_set(map@),
            final(self).registry() == old(self).registry().union_prefer_right(reg_of(map@)),
    {
        let ghost m0 = map@;
        let total = map.len();
        let mut map = map;
        let mut k: usize = 0;
        proof {
            assert(m0.subrange(0, 0) =~= Seq::<Entry>::empty());
            assert(old(self).registry().union_prefer_right(reg_of(m0.subrange(0, 0))) =~= old(self).registry());
            assert(names(m0.subrange(0, 0)).to_set() =~= Set::<Seq<char>>::empty());
            assert(old(self).registered() + name_set(m0.subrange(0, 0)) =~= old(self).registered());
        }
        while map.len() > 0
            invariant
                self.wf(),
                self.template_str == old(self).template_str,
                self.placeholders == old(self).placeholders,
                self.spans == old(self).spans,
                k <= m0.len(),
                m0.len() == total,
                map@ == m0.subrange(k as int, m0.len() as int),
                self.registered() == old(self).registered() + name_set(m0.subrange(0, k as int)),
                self.registry() == old(self).registry().union_prefer_right(reg_of(m0.subrange(0, k as int))),
            decreases map@.len(),
        {
            let (name, f) = map.remove(0);
            proof {
                assert(m0.subrange(0, k + 1).drop_last() =~= m0.subrange(0, k as int));
                assert(names(m0.subrange(0, k + 1)) =~= names(m0.subrange(0, k as int)).push(name@));
                crate::registry::lemma_to_set_push(names(m0.subrange(0, k as int)), name@);
            }
            put_entry(&mut self.placeholder_functions, name, f);
            k = k + 1;
            proof {
                assert(map@ =~= m0.subrange(k as int, m0.len() as int));
                assert(self.registered() =~= old(self).registered() + name_set(m0.subrange(0, k as int)));
                assert(self.registry() =~= old(self).registry().union_prefer_right(
                    reg_of(m0.subrange(0, k as int)),
                ));
            }
        }
        proof {
            assert(m0.subrange(0, k as int) =~= m0);
        }
    }

    /// Replaces all handlers with those of `map`; of two entries with one
    /// name the later one stays.
    pub fn set_placeholders(&mut self, map: Vec<Entry<'a>>)
        requires
            old(self).wf(),
        ensures
            final(self).wf(),
            final(self).template() == old(self).template(),
            final(self).tags() == old(self).tags(),
            final(self).registered() == name_set(map@),
            final(self).registry() == reg_of(map@),
    {
        self.placeholder_functions = Vec::new();
        proof {
            assert(self.placeholder_functions@ =~= Seq::<Entry>::empty());
            assert(self.registered() =~= Set::<Seq<char>>::empty());
            assert(Set::<Seq<char>>::empty() + name_set(map@) =~= name_set(map@));
            assert(Map::<Seq<char>, Handler>::empty().union_prefer_right(reg_of(map@)) =~= reg_of(map@));
        }
        self.append_placeholders(map);
    }

    /// Renders the template: each tag, left to right, is replaced by what the
    /// handler of its name returns for its argument. The first tag whose name
    /// has no handler, or whose handler fails, ends the render with an error.
    /// Handlers are called in the order of their tags, up to the one that
    /// fails; the entries keep their names, and a handler whose name no tag
    /// calls stays as it was.
    pub fn render(&mut self) -> (r: Result<String, RenderError<'a>>)
        requires
            old(self).wf(),
        ensures
            final(self).wf(),
            final(self).template() == old(self).template(),
            final(self).tags() == old(self).tags(),
            final(self).entries().len() == old(self).entries().len(),
            forall|j: int|
                0 <= j < old(self).entries().len() ==> {
                    &&& #[trigger] final(self).entries()[j].0 == old(self).entries()[j].0
                    &&& never_called(old(self).template(), old(self).entries()[j].0@)
                        ==> final(self).entries()[j] == old(self).entries()[j]
                },
            final(self).registered() == old(self).registered(),
            render_outcome(old(self).template(), old(self).tags(), old(self).registered(), r),
            old(self).tags().len() == 0 ==> (r matches Ok(out) && out@ == old(self).template()),
    {
        let ghost t = self.template_str@;
        let ghost spans = scan_spans(t);
        let ghost known = name_set(self.placeholder_functions@);
        let ghost names0 = names(self.placeholder_functions@);
        let ghost e0 = self.placeholder_functions@;
        proof {
            lemma_spans_well_formed(t);
        }
        let mut outputs: Vec<String> = Vec::new();
        let mut k: usize = 0;
        while k < self.placeholders.len()
            invariant
                t == self.template_str@,
                t == old(self).template_str@,
                self.placeholders == old(self).placeholders,
                self.spans == old(self).spans,
                fits_usize(t),
                spans == scan_spans(t),
                char_spans(self.spans@) == spans,
                is_scan_of(t, self.placeholders@),
                spans_ordered(spans, t.len()),
                e0 == old(self).placeholder_functions@,
                self.placeholder_functions@.len() == e0.len(),
                forall|j: int|
                    0 <= j < e0.len() ==> {
                        &&& #[trigger] self.placeholder_functions@[j].0 == e0[j].0
                        &&& (forall|m: int| 0 <= m < k ==> tag_name(t, #[trigger] spans[m]) != e0[j].0@)
                            ==> self.placeholder_functions@[j] == e0[j]
                    },
                names(self.placeholder_functions@) == names0,
                names0 == names(e0),
                known == name_set(e0),
                names_unique(self.placeholder_functions@),
                k <= self.placeholders@.len(),
                outputs@.len() == k,
                known_upto(t, spans, known, k as int),
            decreases self.placeholders@.len() - k,
        {
            let ghost before = self.placeholder_functions@;
            let ghost called: int = -1;
            let p = self.placeholders[k];
            assert(self.placeholders@[k as int].start_idx == crate::text::byte_pos(t, spans[k as int].0 as int));
            assert(p.content@ == span_content(t, spans[k as int]));
            let (func, arg) = split_invocation(p.content);
            match find_entry(&self.placeholder_functions, func) {
                None => {
                    proof {
                        assert(!known.contains(tag_name(t, spans[k as int])));
                        assert forall|j: int| 0 <= j < e0.len() && never_called(t, e0[j].0@) implies
                            self.placeholder_functions@[j] == e0[j] by {
                            assert forall|m: int| 0 <= m < k implies tag_name(t, #[trigger] spans[m]) != e0[j].0@ by {
                                assert(tag_name(t, scan_spans(t)[m]) != e0[j].0@);
                            }
                        }
                    }
                    return Err(RenderError::UnknownFunction(p));
                },
                Some(i) => {
                    proof {
                        called = i as int;
                    }
                    let res = call_entry(&mut self.placeholder_functions, i, func, arg);
                    proof {
                        assert(names0[i as int] == func@);
                        assert(known.contains(tag_name(t, spans[k as int])));
                        assert(tag_name(t, spans[k as int]) == e0[i as int].0@);
                    }
                    match res {
                        Ok(output) => {
                            outputs.push(output);
                        },
                        Err(err) => {
                            proof {
                                assert forall|j: int| 0 <= j < e0.len() && never_called(t, e0[j].0@) implies
                                    self.placeholder_functions@[j] == e0[j] by {
                                    assert forall|m: int| 0 <= m < k + 1 implies tag_name(t, #[trigger] spans[m]) != e0[j].0@ by {
                                        assert(tag_name(t, scan_spans(t)[m]) != e0[j].0@);
                                    }
                                }
                            }
                            return Err(RenderError::FunctionError(func, err));
                        },
                    }
                },
            }
            k = k + 1;
            proof {
                assert forall|j: int| 0 <= j < e0.len() implies {
                    &&& #[trigger] self.placeholder_functions@[j].0 == e0[j].0
                    &&& (forall|m: int| 0 <= m < k ==> tag_name(t, #[trigger] spans[m]) != e0[j].0@)
                        ==> self.placeholder_functions@[j] == e0[j]
                } by {
                    assert(before[j].0 == e0[j].0);
                    if j != called {
                        assert(self.placeholder_functions@[j] == before[j]);
                        if forall|m: int| 0 <= m < k ==> tag_name(t, #[trigger] spans[m]) != e0[j].0@ {
                            assert forall|m: int| 0 <= m < k - 1 implies tag_name(t, #[trigger] spans[m]) != e0[j].0@ by {
                                assert(tag_name(t, spans[m]) != e0[j].0@);
                            }
                            assert(before[j] == e0[j]);
                        }
                    } else {
                        assert(self.placeholder_functions@[j].0 == before[j].0);
                        assert(tag_name(t, spans[k - 1]) == e0[j].0@);
                    }
                }
            }
        }
        let out = assemble(self.template_str, &self.spans, &outputs);
        proof {
            assert forall|j: int| 0 <= j < e0.len() && never_called(t, e0[j].0@) implies
                self.placeholder_functions@[j] == e0[j] by {
                assert forall|m: int| 0 <= m < k implies tag_name(t, #[trigger] spans[m]) != e0[j].0@ by {
                    assert(tag_name(t, scan_spans(t)[m]) != e0[j].0@);
                }
            }
            if spans.len() == 0 {
                assert(spans =~= Seq::<(nat, nat)>::empty());
                lemma_assembled_no_tags(t, outputs@.map_values(|o: String| o@));
            }
        }
        Ok(out)
    }
}

} // verus!
