//! The normalized record model of term/name/kanji dictionaries: entry
//! types, the hierarchical definition tree, and its rendering to HTML.

use vstd::prelude::*;

use crate::text::trim_seq;

verus! {

broadcast use vstd::std_specs::vec::group_vec_axioms;

/// Entry type for words and names.
#[derive(Debug, Eq, PartialEq)]
pub struct TermEntry {
    pub dict_name: String,
    pub writing: String,
    pub reading: String,
    pub definitions: Definition,
    pub infl: InflectionType,
    pub tags: Vec<String>,
    /// Higher is more common.
    pub commonness: i32,
}

/// A (possibly hierarchical) list of definitions: either one rendered
/// definition string, or a header with a list of sub-definitions.
#[derive(Debug, Eq, PartialEq)]
pub enum Definition {
    List(String, Vec<Definition>),
    Def(String),
}

/// The inflection pattern noted on a term record.
#[derive(Copy, Clone, Debug, Eq, PartialEq, Hash)]
pub enum InflectionType {
    VerbIchidan,
    VerbGodan,
    VerbSuru,
    VerbKuru,
    IAdjective,
    NoInflection,
}

/// Entry type for kanji characters.
#[derive(Clone, Debug)]
pub struct KanjiEntry {
    pub dict_name: String,
    pub kanji: String,
    pub onyomi: Vec<String>,
    pub kunyomi: Vec<String>,
    pub meanings: Vec<String>,
}

/// Nesting depth of a definition tree: a plain definition has depth zero,
/// a list is one deeper than its deepest element.
pub open spec fn spec_depth(d: Definition) -> nat
    decreases d, 0int,
{
    match d {
        Definition::Def(_) => 0,
        Definition::List(_h, l) => 1 + list_depth(l@, l@.len() as int),
    }
}

/// Greatest depth among the first `i` elements of a definition list.
pub open spec fn list_depth(s: Seq<Definition>, i: int) -> nat
    decreases s, i,
{
    if i <= 0 || i > s.len() {
        0
    } else {
        let d = spec_depth(s[i - 1]);
        let rest = list_depth(s, i - 1);
        if d > rest {
            d
        } else {
            rest
        }
    }
}

/// Each element of a list is at most as deep as the list maximum.
proof fn lemma_list_depth_bound(s: Seq<Definition>, i: int, k: int)
    requires
        0 <= k < i <= s.len(),
    ensures
        spec_depth(s[k]) <= list_depth(s, i),
    decreases i,
{
    if k == i - 1 {
    } else {
        lemma_list_depth_bound(s, i - 1, k);
    }
}

/// Whether a definition node carries no text: a list with a blank header
/// and no elements, or a blank definition string.
pub open spec fn spec_def_is_empty(d: Definition) -> bool {
    match d {
        Definition::List(h, l) => trim_seq(h@).len() == 0 && l@.len() == 0,
        Definition::Def(s) => trim_seq(s@).len() == 0,
    }
}

impl Definition {
    /// An empty definition list with no header.
    pub fn new() -> (r: Definition)
        ensures
            r matches Definition::List(h, l) && h@.len() == 0 && l@.len() == 0,
    {
        Definition::List(String::new(), Vec::new())
    }

    /// Whether this is a list node.
    pub fn is_list(&self) -> (r: bool)
        ensures
            r == (self is List),
    {
        match self {
            Definition::List(..) => true,
            Definition::Def(_) => false,
        }
    }

    /// Nesting depth of the definition tree.
    #[verifier::loop_isolation(false)]
    pub fn depth(&self) -> (r: usize)
        requires
            spec_depth(*self) <= usize::MAX,
        ensures
            r == spec_depth(*self),
        decreases *self, 0int,
    {
        match self {
            Definition::Def(_) => 0,
            Definition::List(_, l) => {
                let mut m: usize = 0;
                let mut i: usize = 0;
                while i < l.len()
                    invariant
                        0 <= i <= l@.len(),
                        m == list_depth(l@, i as int),
                        1 + list_depth(l@, l@.len() as int) <= usize::MAX,
                    decreases l@.len() - i,
                {
                    proof {
                        lemma_list_depth_bound(l@, l@.len() as int, i as int);
                        assert(decreases_to!(*self => *l));
                        assert(decreases_to!(*l => l@[i as int]));
                        assert(decreases_to!(*self => l@[i as int]));
                    }
                    let d = l[i].depth();
                    if d > m {
                        m = d;
                    }
                    i = i + 1;
                }
                1 + m
            },
        }
    }

    /// Number of immediate entries: the length of a list node, or one for
    /// a plain definition.
    pub fn len(&self) -> (r: usize)
        ensures
            r == (match *self {
                Definition::List(_h, l) => l@.len(),
                Definition::Def(_) => 1nat,
            }),
    {
        match self {
            Definition::List(_, l) => l.len(),
            Definition::Def(_) => 1,
        }
    }

    /// Whether the node carries no text: a list with a blank header and no
    /// elements, or a blank definition string.
    pub fn is_empty(&self) -> (r: bool)
        ensures
            r == spec_def_is_empty(*self),
    {
        match self {
            Definition::List(h, l) => {
                let hc = crate::text::chars_of(h.as_str());
                let ht = crate::text::trim_chars(&hc);
                ht.len() == 0 && l.len() == 0
            },
            Definition::Def(s) => {
                let sc = crate::text::chars_of(s.as_str());
                let st = crate::text::trim_chars(&sc);
                st.len() == 0
            },
        }
    }

    /// The text of a plain definition node.
    pub fn def_text(&self) -> (r: &str)
        requires
            *self is Def,
        ensures
            r@ == self->Def_0@,
    {
        if let Definition::Def(text) = self {
            text.as_str()
        } else {
            vstd::pervasive::unreached()
        }
    }
}

/// The opening ordered-list tag used at a given nesting position: the list
/// style walks roman, alpha, decimal from the outermost level down, with
/// fewer styles when the whole tree is shallow.
pub open spec fn ol_open_tag(td: nat, dp: nat) -> Seq<char> {
    let diff: nat = if dp <= td {
        (td - dp) as nat
    } else {
        0
    };
    if td == 1 {
        "<ol style=\"list-style-type: decimal\">"@
    } else if td == 2 {
        if diff == 0 {
            "<ol style=\"list-style-type: upper-roman\">"@
        } else {
            "<ol style=\"list-style-type: decimal\">"@
        }
    } else {
        if diff == 0 {
            "<ol style=\"list-style-type: upper-roman\">"@
        } else if diff == 1 {
            "<ol style=\"list-style-type: upper-alpha\">"@
        } else {
            "<ol style=\"list-style-type: decimal\">"@
        }
    }
}

/// The HTML rendering of a definition tree.  A list with a blank header
/// and a single element renders as that element one level shallower; other
/// lists render their header paragraph and their elements as `<li>` items
/// of an ordered or unordered list.
pub open spec fn spec_definition_to_html(d: Definition, total_depth: nat, ordered: bool) -> Seq<
    char,
>
    decreases d, 0int,
{
    match d {
        Definition::Def(s) => {
            if total_depth == 0 {
                if ordered {
                    "<ol><li>"@ + s@ + "</li></ol>"@
                } else {
                    "<ul><li>"@ + s@ + "</li></ul>"@
                }
            } else {
                s@
            }
        },
        Definition::List(h, l) => {
            if trim_seq(h@).len() == 0 && l@.len() == 1 {
                spec_definition_to_html(l@[0], (total_depth - 1) as nat, ordered)
            } else {
                let header = if trim_seq(h@).len() > 0 {
                    "<p>"@ + trim_seq(h@) + "</p>"@
                } else {
                    Seq::<char>::empty()
                };
                let open = if ordered {
                    ol_open_tag(total_depth, spec_depth(d))
                } else {
                    "<ul>"@
                };
                let close = if ordered {
                    "</ol>"@
                } else {
                    "</ul>"@
                };
                header + open + spec_list_html(l@, l@.len() as int, total_depth, ordered) + close
            }
        },
    }
}

/// The concatenated `<li>` renderings of the first `i` elements of a
/// definition list.
pub open spec fn spec_list_html(s: Seq<Definition>, i: int, td: nat, ordered: bool) -> Seq<char>
    decreases s, i,
{
    if i <= 0 || i > s.len() {
        Seq::<char>::empty()
    } else {
        spec_list_html(s, i - 1, td, ordered) + "<li>"@ + spec_definition_to_html(
            s[i - 1],
            td,
            ordered,
        ) + "</li>"@
    }
}

/// Converts a definition tree to HTML.
///
/// `total_depth` is the depth of the whole tree the node belongs to, and
/// `ordered_list` selects ordered or unordered HTML lists.
#[verifier::loop_isolation(false)]
#[verifier::rlimit(50)]
pub fn definition_to_html(def: &Definition, total_depth: usize, ordered_list: bool) -> (r: String)
    requires
        spec_depth(*def) <= total_depth,
    ensures
        r@ == spec_definition_to_html(*def, total_depth as nat, ordered_list),
    decreases *def, 0int,
{
    match def {
        Definition::Def(s) => {
            if total_depth == 0 {
                let mut html = String::new();
                if ordered_list {
                    html.append("<ol><li>");
                    html.append(s.as_str());
                    html.append("</li></ol>");
                } else {
                    html.append("<ul><li>");
                    html.append(s.as_str());
                    html.append("</li></ul>");
                }
                html
            } else {
                s.clone()
            }
        },
        Definition::List(h, l) => {
            let hc = crate::text::chars_of(h.as_str());
            let ht = crate::text::trim_chars(&hc);
            proof {
                assert(spec_depth(*def) == 1 + list_depth(l@, l@.len() as int));
            }
            if ht.len() == 0 && l.len() == 1 {
                proof {
                    assert(list_depth(l@, 0) == 0);
                    assert(list_depth(l@, 1) == spec_depth(l@[0]));
                }
                definition_to_html(&l[0], total_depth - 1, ordered_list)
            } else {
                let mut html = String::new();
                if ht.len() > 0 {
                    html.append("<p>");
                    let htext = crate::text::string_from_chars(&ht);
                    html.append(htext.as_str());
                    html.append("</p>");
                }
                if ordered_list {
                    let dp = def.depth();
                    let diff = total_depth - dp;
                    if total_depth == 1 {
                        html.append("<ol style=\"list-style-type: decimal\">");
                    } else if total_depth == 2 {
                        if diff == 0 {
                            html.append("<ol style=\"list-style-type: upper-roman\">");
                        } else {
                            html.append("<ol style=\"list-style-type: decimal\">");
                        }
                    } else {
                        if diff == 0 {
                            html.append("<ol style=\"list-style-type: upper-roman\">");
                        } else if diff == 1 {
                            html.append("<ol style=\"list-style-type: upper-alpha\">");
                        } else {
                            html.append("<ol style=\"list-style-type: decimal\">");
                        }
                    }
                } else {
                    html.append("<ul>");
                }
                let ghost before_items = html@;
                let mut i: usize = 0;
                while i < l.len()
                    invariant
                        0 <= i <= l@.len(),
                        html@ == before_items + spec_list_html(
                            l@,
                            i as int,
                            total_depth as nat,
                            ordered_list,
                        ),
                    decreases l@.len() - i,
                {
                    proof {
                        lemma_list_depth_bound(l@, l@.len() as int, i as int);
                    }
                    html.append("<li>");
                    let sub = definition_to_html(&l[i], total_depth, ordered_list);
                    html.append(sub.as_str());
                    html.append("</li>");
                    proof {
                        assert(html@ =~= before_items + spec_list_html(
                            l@,
                            i + 1,
                            total_depth as nat,
                            ordered_list,
                        ));
                    }
                    i = i + 1;
                }
                if ordered_list {
                    html.append("</ol>");
                } else {
                    html.append("</ul>");
                }
                proof {
                    assert(html@ =~= spec_definition_to_html(
                        *def,
                        total_depth as nat,
                        ordered_list,
                    ));
                }
                html
            }
        },
    }
}

} // verus!
