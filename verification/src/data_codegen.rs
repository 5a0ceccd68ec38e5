//! What the data-container code generator reads from a struct: its members,
//! their types, and the arguments of their `#[legion(...)]` attributes.

use crate::text::{chars_of, push_char, text_eq};
use quote::ToTokens;
use vstd::prelude::*;

verus! {

/// One token of an attribute's argument list, with its text.
#[derive(Clone, Debug, PartialEq, Eq)]
pub enum AttrToken {
    Ident(String),
    Punct(char),
    Literal(String),
    /// A delimited group, with its delimiters.
    Group(String),
}

/// The text of a token.
pub open spec fn token_text(t: AttrToken) -> Seq<char> {
    match t {
        AttrToken::Ident(s) => s@,
        AttrToken::Punct(c) => seq![c],
        AttrToken::Literal(s) => s@,
        AttrToken::Group(s) => s@,
    }
}

/// The printed form of the path that `syn` parses from `text`, if it parses
/// as a path.
pub uninterp spec fn syn_path_text(text: Seq<char>) -> Option<Seq<char>>;

/// Calls `syn::parse_str` for a `syn::Path` and prints the path back as
/// tokens; `None` where the text is not a path. The result depends on the
/// text alone.
#[verifier::external_body]
fn parse_path(text: &str) -> (r: Option<String>)
    ensures
        match r {
            Some(p) => syn_path_text(text@) == Some(p@),
            None => syn_path_text(text@) is None,
        },
{
    syn::parse_str::<syn::Path>(text).ok().map(|p| p.to_token_stream().to_string())
}

/// `s` without its leading double quotes.
pub open spec fn trim_start_quotes(s: Seq<char>) -> Seq<char>
    decreases s.len(),
{
    if s.len() > 0 && s[0] == '"' {
        trim_start_quotes(s.drop_first())
    } else {
        s
    }
}

/// `s` without its trailing double quotes.
pub open spec fn trim_end_quotes(s: Seq<char>) -> Seq<char>
    decreases s.len(),
{
    if s.len() > 0 && s.last() == '"' {
        trim_end_quotes(s.drop_last())
    } else {
        s
    }
}

/// A literal's text without the quotes around it.
pub open spec fn unquote(s: Seq<char>) -> Seq<char> {
    trim_end_quotes(trim_start_quotes(s))
}

proof fn lemma_trim_start(s: Seq<char>, i: int)
    requires
        0 <= i <= s.len(),
        forall|k: int| 0 <= k < i ==> s[k] == '"',
        i == s.len() || s[i] != '"',
    ensures
        trim_start_quotes(s) == s.subrange(i, s.len() as int),
    decreases i,
{
    if i > 0 {
        lemma_trim_start(s.drop_first(), i - 1);
        assert(s.drop_first().subrange(i - 1, s.len() - 1) =~= s.subrange(i, s.len() as int));
    } else {
        assert(s.subrange(0, s.len() as int) =~= s);
    }
}

proof fn lemma_trim_end(s: Seq<char>, j: int)
    requires
        0 <= j <= s.len(),
        forall|k: int| j <= k < s.len() ==> s[k] == '"',
        j == 0 || s[j - 1] != '"',
    ensures
        trim_end_quotes(s) == s.subrange(0, j),
    decreases s.len() - j,
{
    if j < s.len() {
        lemma_trim_end(s.drop_last(), j);
        assert(s.drop_last().subrange(0, j) =~= s.subrange(0, j));
    } else {
        assert(s.subrange(0, s.len() as int) =~= s);
    }
}

fn unquoted(s: &String) -> (r: String)
    ensures
        r@ == unquote(s@),
{
    let cs = chars_of(s);
    let mut i: usize = 0;
    while i < cs.len() && cs[i] == '"'
        invariant
            i <= cs@.len(),
            forall|k: int| 0 <= k < i ==> cs@[k] == '"',
        decreases cs@.len() - i,
    {
        i = i + 1;
    }
    proof {
        lemma_trim_start(cs@, i as int);
    }
    let ghost start = cs@.subrange(i as int, cs@.len() as int);
    let mut j: usize = cs.len();
    while j > i && cs[j - 1] == '"'
        invariant
            i <= j <= cs@.len(),
            forall|k: int| j <= k < cs@.len() ==> cs@[k] == '"',
        decreases j,
    {
        j = j - 1;
    }
    proof {
        lemma_trim_end(start, j - i);
        assert(start.subrange(0, j - i) =~= cs@.subrange(i as int, j as int));
    }
    let mut r = String::new();
    let mut k = i;
    while k < j
        invariant
            i <= k <= j <= cs@.len(),
            r@ == cs@.subrange(i as int, k as int),
        decreases j - k,
    {
        push_char(&mut r, cs[k]);
        proof {
            assert(cs@.subrange(i as int, k + 1) =~= cs@.subrange(i as int, k as int).push(cs@[k as int]));
        }
        k = k + 1;
    }
    r
}

/// The arguments read from the `legion` attributes of a member.
pub struct AttrSpec {
    pub default_literal: Option<Seq<char>>,
    pub readonly: bool,
    pub hidden: bool,
    pub offline: bool,
    pub transient: bool,
    pub resource_type: Option<Seq<char>>,
    pub imports: Seq<Seq<char>>,
    pub tooltip: Seq<char>,
    pub group: Seq<char>,
}

/// The path imported by a member that names a resource type.
pub open spec fn resource_path_id_import() -> Seq<char> {
    "lgn_data_offline::ResourcePathId"@
}

/// A run of identifiers joined by `:` and `.` from `p`, ended by the first
/// other token, or by a group, which belongs to the run.
pub open spec fn ident_run(t: Seq<AttrToken>, p: int, acc: Seq<char>) -> (Seq<char>, int)
    decreases t.len() - p,
{
    if p < 0 || p >= t.len() {
        (acc, p)
    } else {
        match t[p] {
            AttrToken::Punct(c) => if c == ':' || c == '.' {
                ident_run(t, p + 1, acc.push(c))
            } else {
                (acc, p)
            },
            AttrToken::Ident(s) => ident_run(t, p + 1, acc + s@),
            AttrToken::Group(s) => (acc + s@, p + 1),
            AttrToken::Literal(_) => (acc, p),
        }
    }
}

/// The value of a `default` argument at `p`: `=` then an identifier run, a
/// literal, or a group (converted with `into`). Anything else is malformed.
pub open spec fn default_value(t: Seq<AttrToken>, p: int) -> Option<(Seq<char>, int)> {
    if 0 <= p && p + 1 < t.len() && t[p] == AttrToken::Punct('=') {
        match t[p + 1] {
            AttrToken::Ident(s) => Some(ident_run(t, p + 2, s@)),
            AttrToken::Literal(s) => Some((s@, p + 2)),
            AttrToken::Group(s) => Some((s@ + ".into()"@, p + 2)),
            AttrToken::Punct(_) => None,
        }
    } else {
        None
    }
}

/// The value of a `tooltip` or `group` argument at `p`: `=` then a literal,
/// unquoted. Anything else is malformed.
pub open spec fn literal_value(t: Seq<AttrToken>, p: int) -> Option<(Seq<char>, int)> {
    if 0 <= p && p + 1 < t.len() && t[p] == AttrToken::Punct('=') {
        match t[p + 1] {
            AttrToken::Literal(s) => Some((unquote(s@), p + 2)),
            _ => None,
        }
    } else {
        None
    }
}

/// The text of the tokens from `p` up to the next `,` or the end.
pub open spec fn until_comma(t: Seq<AttrToken>, p: int, acc: Seq<char>) -> (Seq<char>, int)
    decreases t.len() - p,
{
    if p < 0 || p >= t.len() || t[p] == AttrToken::Punct(',') {
        (acc, p)
    } else {
        until_comma(t, p + 1, acc + token_text(t[p]))
    }
}

/// The value of a `resource_type` argument at `p`: after an optional `=`,
/// the path written up to the next `,`. Another punctuation first, an empty
/// text, or a text that is no path gives none.
pub open spec fn resource_type_value(t: Seq<AttrToken>, p: int) -> (Option<Seq<char>>, int) {
    if 0 <= p < t.len() && (t[p] matches AttrToken::Punct(c) && c != '=') {
        (None, p)
    } else {
        let q = if 0 <= p < t.len() && t[p] == AttrToken::Punct('=') {
            p + 1
        } else {
            p
        };
        let (text, r) = until_comma(t, q, Seq::empty());
        if text.len() == 0 {
            (None, r)
        } else {
            (syn_path_text(text), r)
        }
    }
}

/// The effect of the argument named `name`, whose value (if any) starts at
/// `p`: the new state and where the next token is, or none if malformed.
pub open spec fn apply_argument(name: Seq<char>, t: Seq<AttrToken>, p: int, a: AttrSpec) -> Option<
    (AttrSpec, int),
> {
    if name == "default"@ {
        match default_value(t, p) {
            Some((v, q)) => Some((AttrSpec { default_literal: Some(v), ..a }, q)),
            None => None,
        }
    } else if name == "readonly"@ {
        Some((AttrSpec { readonly: true, ..a }, p))
    } else if name == "hidden"@ {
        Some((AttrSpec { hidden: true, ..a }, p))
    } else if name == "offline"@ {
        Some((AttrSpec { offline: true, ..a }, p))
    } else if name == "transient"@ {
        Some((AttrSpec { transient: true, ..a }, p))
    } else if name == "resource_type"@ {
        let (r, q) = resource_type_value(t, p);
        Some((AttrSpec { resource_type: r, imports: a.imports.push(resource_path_id_import()), ..a }, q))
    } else if name == "tooltip"@ {
        match literal_value(t, p) {
            Some((v, q)) => Some((AttrSpec { tooltip: v, ..a }, q)),
            None => None,
        }
    } else if name == "group"@ {
        match literal_value(t, p) {
            Some((v, q)) => Some((AttrSpec { group: v, ..a }, q)),
            None => None,
        }
    } else {
        Some((a, p))
    }
}

pub proof fn lemma_ident_run_advances(t: Seq<AttrToken>, p: int, acc: Seq<char>)
    requires
        0 <= p,
    ensures
        ident_run(t, p, acc).1 >= p,
    decreases t.len() - p,
{
    if p < t.len() {
        match t[p] {
            AttrToken::Punct(c) => if c == ':' || c == '.' {
                lemma_ident_run_advances(t, p + 1, acc.push(c));
            },
            AttrToken::Ident(s) => lemma_ident_run_advances(t, p + 1, acc + s@),
            _ => {},
        }
    }
}

pub proof fn lemma_until_comma_advances(t: Seq<AttrToken>, p: int, acc: Seq<char>)
    requires
        0 <= p,
    ensures
        until_comma(t, p, acc).1 >= p,
    decreases t.len() - p,
{
    if p < t.len() && t[p] != AttrToken::Punct(',') {
        lemma_until_comma_advances(t, p + 1, acc + token_text(t[p]));
    }
}

pub proof fn lemma_apply_advances(name: Seq<char>, t: Seq<AttrToken>, p: int, a: AttrSpec)
    requires
        0 <= p,
    ensures
        apply_argument(name, t, p, a) matches Some((_, q)) ==> q >= p,
{
    if 0 <= p && p + 1 < t.len() {
        lemma_ident_run_advances(t, p + 2, Seq::empty());
        if let AttrToken::Ident(s) = t[p + 1] {
            lemma_ident_run_advances(t, p + 2, s@);
        }
    }
    lemma_until_comma_advances(t, p, Seq::empty());
    lemma_until_comma_advances(t, p + 1, Seq::empty());
}

/// The arguments of one `legion(...)` attribute, read from `p`: names, each
/// with its value, separated by commas. A token that is no name, or a
/// punctuation other than a comma after an argument, ends the list; `None`
/// if an argument is malformed.
pub open spec fn parse_arguments(t: Seq<AttrToken>, p: int, a: AttrSpec) -> Option<AttrSpec>
    decreases t.len() - p,
{
    if p < 0 || p >= t.len() {
        Some(a)
    } else {
        match t[p] {
            AttrToken::Ident(name) => match apply_argument(name@, t, p + 1, a) {
                None => None,
                Some((b, q)) => {
                    proof {
                        lemma_apply_advances(name@, t, p + 1, a);
                    }
                    if 0 <= q < t.len() && (t[q] matches AttrToken::Punct(c)) {
                        if t[q] != AttrToken::Punct(',') {
                            Some(b)
                        } else {
                            parse_arguments(t, q + 1, b)
                        }
                    } else {
                        Some(b)
                    }
                },
            },
            _ => Some(a),
        }
    }
}

/// What the generator knows of a member of a data container.
pub struct MemberMetaInfo {
    pub name: String,
    /// The member's type, as the printed tokens of its path.
    pub type_path: String,
    /// The identifiers of the segments of the member's type path.
    pub type_segments: Vec<String>,
    pub resource_type: Option<String>,
    pub imports: Vec<String>,
    pub offline: bool,
    pub group: String,
    pub hidden: bool,
    pub readonly: bool,
    pub transient: bool,
    pub tooltip: String,
    pub default_literal: Option<String>,
}

pub open spec fn opt_text(o: Option<String>) -> Option<Seq<char>> {
    match o {
        Some(s) => Some(s@),
        None => None,
    }
}

/// What a member's attributes have set.
pub open spec fn attr_view(m: MemberMetaInfo) -> AttrSpec {
    AttrSpec {
        default_literal: opt_text(m.default_literal),
        readonly: m.readonly,
        hidden: m.hidden,
        offline: m.offline,
        transient: m.transient,
        resource_type: opt_text(m.resource_type),
        imports: m.imports@.map_values(|s: String| s@),
        tooltip: m.tooltip@,
        group: m.group@,
    }
}

fn ident_run_at(t: &Vec<AttrToken>, p: usize, acc: String) -> (r: (String, usize))
    requires
        p <= t@.len(),
    ensures
        r.1 <= t@.len(),
        (r.0@, r.1 as int) == ident_run(t@, p as int, acc@),
        r.1 >= p,
    decreases t@.len() - p,
{
    if p >= t.len() {
        return (acc, p);
    }
    let mut acc = acc;
    match &t[p] {
        AttrToken::Punct(c) => {
            if *c == ':' || *c == '.' {
                push_char(&mut acc, *c);
                ident_run_at(t, p + 1, acc)
            } else {
                (acc, p)
            }
        },
        AttrToken::Ident(s) => {
            acc.append(s.as_str());
            ident_run_at(t, p + 1, acc)
        },
        AttrToken::Group(s) => {
            acc.append(s.as_str());
            (acc, p + 1)
        },
        AttrToken::Literal(_) => (acc, p),
    }
}

fn is_punct(t: &AttrToken, c: char) -> (r: bool)
    ensures
        r == (*t == AttrToken::Punct(c)),
{
    match t {
        AttrToken::Punct(d) => *d == c,
        _ => false,
    }
}

fn default_value_at(t: &Vec<AttrToken>, p: usize) -> (r: Option<(String, usize)>)
    requires
        p <= t@.len(),
    ensures
        match default_value(t@, p as int) {
            None => r is None,
            Some((v, q)) => r matches Some(x) && x.0@ == v && x.1 == q && q >= p && q <= t@.len(),
        },
{
    let n = t.len();
    if n - p < 2 || !is_punct(&t[p], '=') {
        return None;
    }
    match &t[p + 1] {
        AttrToken::Ident(s) => Some(ident_run_at(t, p + 2, s.clone())),
        AttrToken::Literal(s) => Some((s.clone(), p + 2)),
        AttrToken::Group(s) => {
            let mut text = s.clone();
            text.append(".into()");
            Some((text, p + 2))
        },
        AttrToken::Punct(_) => None,
    }
}

fn literal_value_at(t: &Vec<AttrToken>, p: usize) -> (r: Option<(String, usize)>)
    requires
        p <= t@.len(),
    ensures
        match literal_value(t@, p as int) {
            None => r is None,
            Some((v, q)) => r matches Some(x) && x.0@ == v && x.1 == q && q >= p && q <= t@.len(),
        },
{
    let n = t.len();
    if n - p < 2 || !is_punct(&t[p], '=') {
        return None;
    }
    match &t[p + 1] {
        AttrToken::Literal(s) => Some((unquoted(s), p + 2)),
        _ => None,
    }
}

fn token_text_of(t: &AttrToken) -> (r: String)
    ensures
        r@ == token_text(*t),
{
    match t {
        AttrToken::Ident(s) => s.clone(),
        AttrToken::Punct(c) => {
            let mut r = String::new();
            push_char(&mut r, *c);
            assert(r@ =~= seq![*c]);
            r
        },
        AttrToken::Literal(s) => s.clone(),
        AttrToken::Group(s) => s.clone(),
    }
}

fn until_comma_at(t: &Vec<AttrToken>, p: usize) -> (r: (String, usize))
    requires
        p <= t@.len(),
    ensures
        r.1 <= t@.len(),
        (r.0@, r.1 as int) == until_comma(t@, p as int, Seq::empty()),
        r.1 >= p,
{
    let mut acc = String::new();
    let mut q = p;
    while q < t.len() && !is_punct(&t[q], ',')
        invariant
            p <= q <= t@.len(),
            until_comma(t@, p as int, Seq::empty()) == until_comma(t@, q as int, acc@),
        decreases t@.len() - q,
    {
        let text = token_text_of(&t[q]);
        acc.append(text.as_str());
        q = q + 1;
    }
    (acc, q)
}

fn resource_type_value_at(t: &Vec<AttrToken>, p: usize) -> (r: (Option<String>, usize))
    requires
        p <= t@.len(),
    ensures
        r.1 <= t@.len(),
        (opt_text(r.0), r.1 as int) == resource_type_value(t@, p as int),
        r.1 >= p,
{
    let mut q = p;
    if p < t.len() {
        match &t[p] {
            AttrToken::Punct(c) => {
                if *c == '=' {
                    q = p + 1;
                } else {
                    return (None, p);
                }
            },
            _ => {},
        }
    }
    let (text, r) = until_comma_at(t, q);
    if text.as_str().is_empty() {
        (None, r)
    } else {
        (parse_path(text.as_str()), r)
    }
}

fn string_vec_push_view(v: &mut Vec<String>, x: String)
    ensures
        final(v)@.map_values(|s: String| s@) == old(v)@.map_values(|s: String| s@).push(x@),
        final(v)@ == old(v)@.push(x),
{
    let ghost x_view = x@;
    v.push(x);
    proof {
        assert(v@.map_values(|s: String| s@) =~= old(v)@.map_values(|s: String| s@).push(x_view));
    }
}

/// Whether member `a` is unchanged but for its attribute arguments.
pub open spec fn same_member(a: MemberMetaInfo, b: MemberMetaInfo) -> bool {
    &&& a.name == b.name
    &&& a.type_path == b.type_path
    &&& a.type_segments == b.type_segments
}

fn apply_argument_at(name: &String, t: &Vec<AttrToken>, p: usize, m: &mut MemberMetaInfo) -> (r: Option<usize>)
    requires
        p <= t@.len(),
    ensures
        match apply_argument(name@, t@, p as int, attr_view(*old(m))) {
            None => r is None,
            Some((a, q)) => r == Some(q as usize) && attr_view(*final(m)) == a && q >= p && q <= t@.len(),
        },
        same_member(*old(m), *final(m)),
{
    if text_eq(name, "default") {
        let (v, q) = default_value_at(t, p)?;
        m.default_literal = Some(v);
        Some(q)
    } else if text_eq(name, "readonly") {
        m.readonly = true;
        Some(p)
    } else if text_eq(name, "hidden") {
        m.hidden = true;
        Some(p)
    } else if text_eq(name, "offline") {
        m.offline = true;
        Some(p)
    } else if text_eq(name, "transient") {
        m.transient = true;
        Some(p)
    } else if text_eq(name, "resource_type") {
        let (rt, q) = resource_type_value_at(t, p);
        m.resource_type = rt;
        string_vec_push_view(&mut m.imports, String::from_str("lgn_data_offline::ResourcePathId"));
        Some(q)
    } else if text_eq(name, "tooltip") {
        let (v, q) = literal_value_at(t, p)?;
        m.tooltip = v;
        Some(q)
    } else if text_eq(name, "group") {
        let (v, q) = literal_value_at(t, p)?;
        m.group = v;
        Some(q)
    } else {
        Some(p)
    }
}

/// Reads the arguments of one `legion(...)` attribute into `m`; `false` if
/// one is malformed.
fn parse_arguments_at(t: &Vec<AttrToken>, m: &mut MemberMetaInfo) -> (r: bool)
    ensures
        r == parse_arguments(t@, 0, attr_view(*old(m))) is Some,
        r ==> parse_arguments(t@, 0, attr_view(*old(m))) == Some(attr_view(*final(m))),
        same_member(*old(m), *final(m)),
{
    let ghost goal = parse_arguments(t@, 0, attr_view(*m));
    let mut p: usize = 0;
    loop
        invariant_except_break
            p <= t@.len(),
            goal == parse_arguments(t@, p as int, attr_view(*m)),
        invariant
            same_member(*old(m), *m),
            goal == parse_arguments(t@, 0, attr_view(*old(m))),
        ensures
            goal == Some(attr_view(*m)),
        decreases t@.len() - p,
    {
        if p >= t.len() {
            break;
        }
        let ghost before = attr_view(*m);
        let q = match &t[p] {
            AttrToken::Ident(name) => match apply_argument_at(name, t, p + 1, m) {
                Some(q) => q,
                None => {
                    proof {
                        assert(t@[p as int] == AttrToken::Ident(*name));
                        assert(apply_argument(name@, t@, p + 1, before) is None);
                        assert(parse_arguments(t@, p as int, before) is None);
                    }
                    return false;
                },
            },
            _ => {
                break;
            },
        };
        if q < t.len() {
            match &t[q] {
                AttrToken::Punct(c) => {
                    if *c != ',' {
                        break;
                    }
                },
                _ => {
                    break;
                },
            }
        } else {
            break;
        }
        p = q + 1;
    }
    true
}

/// An attribute of a member: whether it is `legion`, and the tokens inside
/// the group that follows its path, if a group follows.
pub struct FieldAttribute {
    pub is_legion: bool,
    pub arguments: Option<Vec<AttrToken>>,
}

/// The arguments of `attrs[i..]` applied to `a`, `None` if one is malformed.
pub open spec fn parse_attributes(attrs: Seq<FieldAttribute>, i: int, a: AttrSpec) -> Option<AttrSpec>
    decreases attrs.len() - i,
{
    if i < 0 || i >= attrs.len() {
        Some(a)
    } else if attrs[i].is_legion && attrs[i].arguments is Some {
        match parse_arguments(attrs[i].arguments->0@, 0, a) {
            Some(b) => parse_attributes(attrs, i + 1, b),
            None => None,
        }
    } else {
        parse_attributes(attrs, i + 1, a)
    }
}

/// A member before any attribute is read.
pub open spec fn no_attributes() -> AttrSpec {
    AttrSpec {
        default_literal: None,
        readonly: false,
        hidden: false,
        offline: false,
        transient: false,
        resource_type: None,
        imports: Seq::empty(),
        tooltip: Seq::empty(),
        group: Seq::empty(),
    }
}

/// What the generator knows of the member `name` of type `type_path`: the
/// arguments of its `legion` attributes, read in order (a later one
/// overrides an earlier); `None` if an argument is malformed.
pub fn try_get_member_info(
    name: String,
    type_path: String,
    type_segments: Vec<String>,
    attrs: &Vec<FieldAttribute>,
) -> (r: Option<MemberMetaInfo>)
    ensures
        match parse_attributes(attrs@, 0, no_attributes()) {
            None => r is None,
            Some(a) => r matches Some(m) && attr_view(m) == a && m.name@ == name@ && m.type_path@ == type_path@
                && m.type_segments@ == type_segments@,
        },
{
    let mut m = MemberMetaInfo {
        name,
        type_path,
        type_segments,
        resource_type: None,
        imports: Vec::new(),
        offline: false,
        group: String::new(),
        hidden: false,
        readonly: false,
        transient: false,
        tooltip: String::new(),
        default_literal: None,
    };
    let ghost m0 = m;
    proof {
        assert(attr_view(m) == no_attributes()) by {
            assert(m.imports@.map_values(|s: String| s@) =~= Seq::<Seq<char>>::empty());
        }
    }
    let mut i: usize = 0;
    while i < attrs.len()
        invariant
            i <= attrs@.len(),
            parse_attributes(attrs@, 0, no_attributes()) == parse_attributes(attrs@, i as int, attr_view(m)),
            m.name == m0.name,
            m.type_path == m0.type_path,
            m.type_segments == m0.type_segments,
        decreases attrs@.len() - i,
    {
        let attr = &attrs[i];
        if attr.is_legion {
            match &attr.arguments {
                Some(tokens) => {
                    if !parse_arguments_at(tokens, &mut m) {
                        return None;
                    }
                },
                None => {},
            }
        }
        i = i + 1;
    }
    Some(m)
}

/// What the generator knows of the member `name` of type `type_path`: the
/// arguments of its `legion` attributes, read in order (a later one
/// overrides an earlier). The attributes must be well formed.
pub fn get_member_info(
    name: String,
    type_path: String,
    type_segments: Vec<String>,
    attrs: &Vec<FieldAttribute>,
) -> (r: MemberMetaInfo)
    requires
        parse_attributes(attrs@, 0, no_attributes()) is Some,
    ensures
        parse_attributes(attrs@, 0, no_attributes()) == Some(attr_view(r)),
        r.name@ == name@,
        r.type_path@ == type_path@,
        r.type_segments@ == type_segments@,
{
    match try_get_member_info(name, type_path, type_segments, attrs) {
        Some(m) => m,
        None => {
            proof {
                assert(false);
            }
            MemberMetaInfo {
                name: String::new(),
                type_path: String::new(),
                type_segments: Vec::new(),
                resource_type: None,
                imports: Vec::new(),
                offline: false,
                group: String::new(),
                hidden: false,
                readonly: false,
                transient: false,
                tooltip: String::new(),
                default_literal: None,
            }
        },
    }
}

/// The type a member has in the runtime form of the container: an optional
/// or a list of resource paths becomes an optional or a list of references
/// to the resource type named by the member (to any resource if none);
/// other types stay.
pub open spec fn runtime_type(type_path: Seq<char>, resource_type: Option<Seq<char>>) -> Option<Seq<char>> {
    let target = match resource_type {
        Some(rt) => rt,
        None => "lgn_data_runtime::Resource"@,
    };
    if type_path == "Option < ResourcePathId >"@ {
        syn_path_text("Option<lgn_data_runtime::Reference<"@ + target + ">>"@)
    } else if type_path == "Vec < ResourcePathId >"@ {
        syn_path_text("Vec<lgn_data_runtime::Reference<"@ + target + ">>"@)
    } else {
        Some(type_path)
    }
}

/// In the runtime form, an optional resource path becomes an optional
/// reference and a list of resource paths a list of references, both to the
/// member's resource type when it names one and to any resource otherwise;
/// any other type is kept as it is.
pub proof fn lemma_runtime_type_references(type_path: Seq<char>, resource_type: Option<Seq<char>>)
    ensures
        type_path == "Option < ResourcePathId >"@ ==> runtime_type(type_path, resource_type) == syn_path_text(
            "Option<lgn_data_runtime::Reference<"@ + match resource_type {
                Some(t) => t,
                None => "lgn_data_runtime::Resource"@,
            } + ">>"@,
        ),
        type_path == "Vec < ResourcePathId >"@ ==> runtime_type(type_path, resource_type) == syn_path_text(
            "Vec<lgn_data_runtime::Reference<"@ + match resource_type {
                Some(t) => t,
                None => "lgn_data_runtime::Resource"@,
            } + ">>"@,
        ),
        type_path != "Option < ResourcePathId >"@ && type_path != "Vec < ResourcePathId >"@ ==> runtime_type(
            type_path,
            resource_type,
        ) == Some(type_path),
{
    reveal_strlit("Option < ResourcePathId >");
    reveal_strlit("Vec < ResourcePathId >");
    assert("Option < ResourcePathId >"@[0] != "Vec < ResourcePathId >"@[0]);
}

impl MemberMetaInfo {
    /// Whether the type's first segment is `Option`.
    pub fn is_option(&self) -> (r: bool)
        ensures
            r == (self.type_segments@.len() > 0 && self.type_segments@[0]@ == "Option"@),
    {
        self.type_segments.len() > 0 && text_eq(&self.type_segments[0], "Option")
    }

    /// Whether the type's first segment is `Vec`.
    pub fn is_vec(&self) -> (r: bool)
        ensures
            r == (self.type_segments@.len() > 0 && self.type_segments@[0]@ == "Vec"@),
    {
        self.type_segments.len() > 0 && text_eq(&self.type_segments[0], "Vec")
    }

    /// Whether the member is cloned when compiled: when it is a `Vec`.
    pub fn clone_on_compile(&self) -> (r: bool)
        ensures
            r == (self.type_segments@.len() > 0 && self.type_segments@[0]@ == "Vec"@),
    {
        self.is_vec()
    }

    /// The printed tokens of the member's type.
    pub fn get_type_name(&self) -> (r: String)
        ensures
            r@ == self.type_path@,
    {
        self.type_path.clone()
    }

    /// The member's type in the runtime form of the container.
    pub fn get_runtime_type(&self) -> (r: Option<String>)
        ensures
            opt_text(r) == runtime_type(self.type_path@, opt_text(self.resource_type)),
    {
        let is_opt = text_eq(&self.type_path, "Option < ResourcePathId >");
        let is_list = text_eq(&self.type_path, "Vec < ResourcePathId >");
        if !is_opt && !is_list {
            return Some(self.type_path.clone());
        }
        let mut text = if is_opt {
            String::from_str("Option<lgn_data_runtime::Reference<")
        } else {
            String::from_str("Vec<lgn_data_runtime::Reference<")
        };
        match &self.resource_type {
            Some(rt) => text.append(rt.as_str()),
            None => text.append("lgn_data_runtime::Resource"),
        }
        text.append(">>");
        parse_path(text.as_str())
    }
}

/// A field of a struct: its name, its type if the type is a path (printed,
/// and the identifiers of its segments), and its attributes.
pub struct FieldDesc {
    pub name: String,
    pub type_path: Option<(String, Vec<String>)>,
    pub attrs: Vec<FieldAttribute>,
}

/// The printed type of a field whose type is a path.
pub open spec fn field_path(f: FieldDesc) -> Seq<char> {
    match f.type_path {
        Some((p, _)) => p@,
        None => Seq::empty(),
    }
}

/// The segment identifiers of a field whose type is a path.
pub open spec fn field_segments(f: FieldDesc) -> Seq<Seq<char>> {
    match f.type_path {
        Some((_, segs)) => texts(segs@),
        None => Seq::empty(),
    }
}

/// What the generator knows of a data container.
pub struct DataContainerMetaInfo {
    pub name: String,
    pub need_life_time: bool,
    pub members: Vec<MemberMetaInfo>,
    pub is_resource: bool,
    pub is_component: bool,
}

/// Whether one of the attributes' paths is the single identifier `word`.
pub open spec fn has_marker(attrs: Seq<Vec<String>>, word: Seq<char>) -> bool {
    exists|i: int| 0 <= i < attrs.len() && attrs[i]@.len() == 1 && (#[trigger] attrs[i]@)[0]@ == word
}

fn has_marker_attr(attrs: &Vec<Vec<String>>, word: &str) -> (r: bool)
    ensures
        r == has_marker(attrs@, word@),
{
    let mut i: usize = 0;
    while i < attrs.len()
        invariant
            i <= attrs@.len(),
            forall|k: int| 0 <= k < i ==> !(attrs@[k]@.len() == 1 && (#[trigger] attrs@[k]@)[0]@ == word@),
        decreases attrs@.len() - i,
    {
        if attrs[i].len() == 1 && text_eq(&attrs[i][0], word) {
            proof {
                assert(attrs@[i as int]@.len() == 1 && attrs@[i as int]@[0]@ == word@);
            }
            return true;
        }
        i = i + 1;
    }
    false
}

/// Whether the fields before `i` and field `i` all have path types.
pub open spec fn paths_up_to(fields: Seq<FieldDesc>, i: int) -> bool {
    forall|j: int| 0 <= j <= i ==> (#[trigger] fields[j]).type_path is Some
}

/// The message of a field whose type is no path.
pub open spec fn unsupported_field_message(name: Seq<char>) -> Seq<char> {
    "Legion: unsupported field type: "@ + name
}

/// What the generator makes of each field when all are read.
pub open spec fn members_match(members: Seq<MemberMetaInfo>, fields: Seq<FieldDesc>, n: int) -> bool {
    &&& members.len() == n
    &&& forall|i: int|
        0 <= i < n ==> {
            let m = #[trigger] members[i];
            &&& m.name@ == fields[i].name@
            &&& m.type_path@ == field_path(fields[i])
            &&& texts(m.type_segments@) == field_segments(fields[i])
            &&& parse_attributes(fields[i].attrs@, 0, no_attributes()) == Some(attr_view(m))
        }
}

/// Whether a field that is read has malformed attributes: one whose type
/// and the types before it are paths.
pub open spec fn some_read_field_malformed(fields: Seq<FieldDesc>) -> bool {
    exists|i: int|
        0 <= i < fields.len() && paths_up_to(fields, i) && parse_attributes(
            (#[trigger] fields[i]).attrs@,
            0,
            no_attributes(),
        ) is None
}

/// What the generator knows of the struct `name`: whether an attribute marks
/// it as a resource or a component, and each field as a member, in order.
/// The first field whose type is no path is refused, by name. `None` if the
/// attributes of a field read before that are malformed.
pub fn try_get_data_container_info(name: String, struct_attrs: &Vec<Vec<String>>, fields: &Vec<FieldDesc>) -> (r:
    Option<Result<DataContainerMetaInfo, String>>)
    ensures
        some_read_field_malformed(fields@) <==> r is None,
        (forall|i: int| 0 <= i < fields@.len() ==> (#[trigger] fields@[i]).type_path is Some) && r is Some ==> (r matches Some(Ok(info))
            && info.name@ == name@ && !info.need_life_time && info.is_resource == has_marker(struct_attrs@, "resource"@)
            && info.is_component == has_marker(struct_attrs@, "component"@) && members_match(
            info.members@,
            fields@,
            fields@.len() as int,
        )),
        forall|i: int|
            0 <= i < fields@.len() && fields@[i].type_path is None && (forall|j: int|
                0 <= j < i ==> (#[trigger] fields@[j]).type_path is Some) && r is Some ==> (r matches Some(Err(msg))
                && msg@ == unsupported_field_message(fields@[i].name@)),
{
    let is_resource = has_marker_attr(struct_attrs, "resource");
    let is_component = has_marker_attr(struct_attrs, "component");
    let mut members: Vec<MemberMetaInfo> = Vec::new();
    let mut i: usize = 0;
    while i < fields.len()
        invariant
            i <= fields@.len(),
            forall|j: int| 0 <= j < i ==> (#[trigger] fields@[j]).type_path is Some,
            forall|k: int| 0 <= k < i ==> parse_attributes((#[trigger] fields@[k]).attrs@, 0, no_attributes()) is Some,
            members_match(members@, fields@, i as int),
        decreases fields@.len() - i,
    {
        let field = &fields[i];
        match &field.type_path {
            Some((path, segments)) => {
                match try_get_member_info(field.name.clone(), path.clone(), clone_strings(segments), &field.attrs) {
                    Some(member) => {
                        members.push(member);
                    },
                    None => {
                        proof {
                            assert(paths_up_to(fields@, i as int));
                            assert(parse_attributes(fields@[i as int].attrs@, 0, no_attributes()) is None);
                        }
                        return None;
                    },
                }
            },
            None => {
                proof {
                    assert forall|k: int| 0 <= k < fields@.len() && paths_up_to(fields@, k) implies parse_attributes(
                        (#[trigger] fields@[k]).attrs@,
                        0,
                        no_attributes(),
                    ) is Some by {
                        if k >= i {
                            assert(fields@[i as int].type_path is None);
                        }
                    }
                }
                let mut msg = String::from_str("Legion: unsupported field type: ");
                msg.append(field.name.as_str());
                return Some(Err(msg));
            },
        }
        i = i + 1;
    }
    Some(Ok(DataContainerMetaInfo { name, need_life_time: false, members, is_resource, is_component }))
}

/// What the generator knows of the struct `name`, as `try_get_data_container_info`
/// says; the attributes of the fields read must be well formed.
pub fn get_data_container_info(name: String, struct_attrs: &Vec<Vec<String>>, fields: &Vec<FieldDesc>) -> (r:
    Result<DataContainerMetaInfo, String>)
    requires
        !some_read_field_malformed(fields@),
    ensures
        (forall|i: int| 0 <= i < fields@.len() ==> (#[trigger] fields@[i]).type_path is Some) ==> (r matches Ok(info)
            && info.name@ == name@ && !info.need_life_time && info.is_resource == has_marker(struct_attrs@, "resource"@)
            && info.is_component == has_marker(struct_attrs@, "component"@) && members_match(
            info.members@,
            fields@,
            fields@.len() as int,
        )),
        forall|i: int|
            0 <= i < fields@.len() && fields@[i].type_path is None && (forall|j: int|
                0 <= j < i ==> (#[trigger] fields@[j]).type_path is Some) ==> (r matches Err(msg) && msg@
                == unsupported_field_message(fields@[i].name@)),
{
    match try_get_data_container_info(name, struct_attrs, fields) {
        Some(r) => r,
        None => {
            proof {
                assert(false);
            }
            Err(String::new())
        },
    }
}

fn clone_strings(v: &Vec<String>) -> (r: Vec<String>)
    ensures
        texts(r@) == texts(v@),
{
    let mut r: Vec<String> = Vec::new();
    let mut i: usize = 0;
    while i < v.len()
        invariant
            i <= v@.len(),
            r@.len() == i,
            forall|k: int| 0 <= k < i ==> (#[trigger] r@[k])@ == v@[k]@,
        decreases v@.len() - i,
    {
        r.push(v[i].clone());
        i = i + 1;
    }
    assert(texts(r@) =~= texts(v@));
    r
}

impl DataContainerMetaInfo {
    /// Whether the generated code needs a lifetime: never, as members are
    /// not deserialized in place.
    pub fn need_life_time(&self) -> (r: bool)
        ensures
            !r,
    {
        false
    }

    /// The imports of all members, each once, in the order first met.
    pub fn imports(&self) -> (r: Vec<String>)
        ensures
            texts(r@).no_duplicates(),
            forall|x: Seq<char>| #[trigger] texts(r@).contains(x) <==> exists|i: int, j: int|
                0 <= i < self.members@.len() && 0 <= j < self.members@[i].imports@.len()
                    && (#[trigger] self.members@[i].imports@[j])@ == x,
    {
        let mut output: Vec<String> = Vec::new();
        let mut i: usize = 0;
        while i < self.members.len()
            invariant
                i <= self.members@.len(),
                texts(output@).no_duplicates(),
                forall|x: Seq<char>| #[trigger] texts(output@).contains(x) <==> exists|a: int, b: int|
                    0 <= a < i && 0 <= b < self.members@[a].imports@.len()
                        && (#[trigger] self.members@[a].imports@[b])@ == x,
            decreases self.members@.len() - i,
        {
            let imports = &self.members[i].imports;
            let mut j: usize = 0;
            while j < imports.len()
                invariant
                    i < self.members@.len(),
                    imports == self.members@[i as int].imports,
                    j <= imports@.len(),
                    texts(output@).no_duplicates(),
                    forall|x: Seq<char>| #[trigger] texts(output@).contains(x) <==> (exists|a: int, b: int|
                        0 <= a < i && 0 <= b < self.members@[a].imports@.len()
                            && (#[trigger] self.members@[a].imports@[b])@ == x) || (exists|b: int|
                        0 <= b < j && (#[trigger] imports@[b])@ == x),
                decreases imports@.len() - j,
            {
                let ghost before = texts(output@);
                if !contains_text(&output, &imports[j]) {
                    string_vec_push_view(&mut output, imports[j].clone());
                    proof {
                        assert(texts(output@) == before.push(imports@[j as int]@));
                        assert forall|a: int, b: int| 0 <= a < b < texts(output@).len() implies texts(output@)[a] != texts(output@)[b] by {
                            if b == texts(output@).len() - 1 {
                                assert(before.contains(texts(output@)[a]));
                            } else {
                                assert(texts(output@)[a] == before[a]);
                                assert(texts(output@)[b] == before[b]);
                            }
                        }
                    }
                }
                proof {
                    let now = texts(output@);
                    assert forall|x: Seq<char>| #[trigger] now.contains(x) <==> (exists|a: int, b: int|
                        0 <= a < i && 0 <= b < self.members@[a].imports@.len()
                            && (#[trigger] self.members@[a].imports@[b])@ == x) || (exists|b: int|
                        0 <= b < j + 1 && (#[trigger] imports@[b])@ == x) by {
                        if now.contains(x) && !before.contains(x) {
                            assert(imports@[j as int]@ == x);
                        }
                        if x == imports@[j as int]@ {
                            if before.contains(x) {
                            } else {
                                assert(now[now.len() - 1] == x);
                            }
                        }
                        if before.contains(x) {
                            let k = choose|k: int| 0 <= k < before.len() && before[k] == x;
                            assert(now[k] == x);
                        }
                    }
                }
                j = j + 1;
            }
            proof {
                let now = texts(output@);
                assert forall|x: Seq<char>| #[trigger] now.contains(x) <==> exists|a: int, b: int|
                    0 <= a < i + 1 && 0 <= b < self.members@[a].imports@.len()
                        && (#[trigger] self.members@[a].imports@[b])@ == x by {
                    if exists|b: int| 0 <= b < j && (#[trigger] imports@[b])@ == x {
                        let b = choose|b: int| 0 <= b < j && (#[trigger] imports@[b])@ == x;
                        assert(self.members@[i as int].imports@[b]@ == x);
                    }
                    if exists|a: int, b: int| 0 <= a < i + 1 && 0 <= b < self.members@[a].imports@.len()
                        && (#[trigger] self.members@[a].imports@[b])@ == x {
                        let (a, b) = choose|a: int, b: int| 0 <= a < i + 1 && 0 <= b < self.members@[a].imports@.len()
                            && (#[trigger] self.members@[a].imports@[b])@ == x;
                        if a == i {
                            assert(imports@[b]@ == x);
                        }
                    }
                }
            }
            i = i + 1;
        }
        output
    }
}

/// The texts of a list of strings.
pub open spec fn texts(v: Seq<String>) -> Seq<Seq<char>> {
    v.map_values(|s: String| s@)
}

fn contains_text(v: &Vec<String>, x: &String) -> (r: bool)
    ensures
        r == texts(v@).contains(x@),
{
    let mut i: usize = 0;
    while i < v.len()
        invariant
            i <= v@.len(),
            forall|k: int| 0 <= k < i ==> v@[k]@ != x@,
        decreases v@.len() - i,
    {
        if v[i] == *x {
            proof {
                assert(texts(v@)[i as int] == x@);
            }
            return true;
        }
        i = i + 1;
    }
    proof {
        if texts(v@).contains(x@) {
            let k = choose|k: int| 0 <= k < texts(v@).len() && texts(v@)[k] == x@;
            assert(v@[k]@ == x@);
        }
    }
    false
}

/// How the compiled form of a resource gets a member from its offline form.
#[derive(Clone, Copy, Debug, PartialEq, Eq, Structural)]
pub enum CompileConversion {
    /// An optional resource path becomes an optional passive reference.
    PassiveReference,
    /// A list of resource paths becomes a list of passive references.
    PassiveReferences,
    /// Any other member is cloned.
    Cloned,
}

/// What a member adds to the dependencies that a resource names.
#[derive(Clone, Copy, Debug, PartialEq, Eq, Structural)]
pub enum DependencyUse {
    /// An optional resource path: the path, when there is one.
    Optional,
    /// A list of resource paths: all of them.
    All,
    /// Any other member: nothing.
    Ignored,
}

pub open spec fn compile_conversion_of(type_path: Seq<char>) -> CompileConversion {
    if type_path == "Option < ResourcePathId >"@ {
        CompileConversion::PassiveReference
    } else if type_path == "Vec < ResourcePathId >"@ {
        CompileConversion::PassiveReferences
    } else {
        CompileConversion::Cloned
    }
}

pub open spec fn dependency_use_of(type_path: Seq<char>) -> DependencyUse {
    if type_path == "Option < ResourcePathId >"@ {
        DependencyUse::Optional
    } else if type_path == "Vec < ResourcePathId >"@ {
        DependencyUse::All
    } else {
        DependencyUse::Ignored
    }
}

/// The members that the compiled form of a resource holds: those not marked
/// offline, in order.
pub open spec fn compiled_members(members: Seq<MemberMetaInfo>) -> Seq<MemberMetaInfo>
    decreases members.len(),
{
    if members.len() == 0 {
        Seq::empty()
    } else if members.last().offline {
        compiled_members(members.drop_last())
    } else {
        compiled_members(members.drop_last()).push(members.last())
    }
}

/// The compiled form holds exactly the members not marked offline, in
/// their order; being hidden, read-only or transient removes none: each
/// member that is not offline is among them, and each of them is a member
/// that is not offline.
pub proof fn lemma_compiled_members_are_online(members: Seq<MemberMetaInfo>)
    ensures
        compiled_members(members) == members.filter(|m: MemberMetaInfo| !m.offline),
        forall|k: int| 0 <= k < members.len() && !(#[trigger] members[k]).offline ==> compiled_members(members).contains(
            members[k],
        ),
        forall|x: MemberMetaInfo| #[trigger] compiled_members(members).contains(x) ==> members.contains(x) && !x.offline,
    decreases members.len(),
{
    reveal(Seq::filter);
    if members.len() > 0 {
        let init = members.drop_last();
        lemma_compiled_members_are_online(init);
        let c0 = compiled_members(init);
        let c = compiled_members(members);
        let last = members.last();
        let pred = |m: MemberMetaInfo| !m.offline;
        assert(members.filter(pred) == if pred(last) {
            init.filter(pred).push(last)
        } else {
            init.filter(pred)
        });
        assert forall|k: int| 0 <= k < members.len() && !(#[trigger] members[k]).offline implies c.contains(
            members[k],
        ) by {
            if k < members.len() - 1 {
                assert(init[k] == members[k]);
                assert(c0.contains(members[k]));
                let j = choose|j: int| 0 <= j < c0.len() && c0[j] == members[k];
                if !last.offline {
                    assert(c[j] == c0[j]);
                }
            } else {
                assert(members[k] == last);
                assert(c[c.len() - 1] == last);
            }
        }
        assert forall|x: MemberMetaInfo| #[trigger] c.contains(x) implies members.contains(x) && !x.offline by {
            let j = choose|j: int| 0 <= j < c.len() && c[j] == x;
            if !last.offline && j == c.len() - 1 {
                assert(x == last);
                assert(members[members.len() - 1] == x);
            } else {
                assert(c0[j] == x);
                assert(c0.contains(x));
                let q = choose|q: int| 0 <= q < init.len() && init[q] == x;
                assert(members[q] == x);
            }
        }
    }
}

/// A member's compiled value is a passive reference exactly for an optional
/// resource path, a list of passive references exactly for a list of
/// resource paths, and a clone for every other type; it adds one dependency
/// at most exactly for an optional resource path, all of its paths exactly
/// for a list, and none otherwise.
pub proof fn lemma_member_conversions(type_path: Seq<char>)
    ensures
        compile_conversion_of(type_path) == CompileConversion::PassiveReference <==> type_path
            == "Option < ResourcePathId >"@,
        compile_conversion_of(type_path) == CompileConversion::PassiveReferences <==> type_path
            == "Vec < ResourcePathId >"@,
        compile_conversion_of(type_path) == CompileConversion::Cloned <==> (type_path != "Option < ResourcePathId >"@
            && type_path != "Vec < ResourcePathId >"@),
        dependency_use_of(type_path) == DependencyUse::Optional <==> type_path == "Option < ResourcePathId >"@,
        dependency_use_of(type_path) == DependencyUse::All <==> type_path == "Vec < ResourcePathId >"@,
        dependency_use_of(type_path) == DependencyUse::Ignored <==> (type_path != "Option < ResourcePathId >"@
            && type_path != "Vec < ResourcePathId >"@),
{
    reveal_strlit("Option < ResourcePathId >");
    reveal_strlit("Vec < ResourcePathId >");
    assert("Option < ResourcePathId >"@[0] != "Vec < ResourcePathId >"@[0]);
}

/// The fields of the generated `compile_resource`: each member that is not
/// offline, in order, with the way its value is made.
pub fn compile_resource_plan(info: &DataContainerMetaInfo) -> (r: Vec<(String, CompileConversion)>)
    ensures
        r@.len() == compiled_members(info.members@).len(),
        forall|k: int|
            0 <= k < r@.len() ==> {
                &&& (#[trigger] r@[k]).0@ == compiled_members(info.members@)[k].name@
                &&& r@[k].1 == compile_conversion_of(compiled_members(info.members@)[k].type_path@)
            },
{
    let mut plan: Vec<(String, CompileConversion)> = Vec::new();
    let n = info.members.len();
    for i in 0..n
        invariant
            n == info.members@.len(),
            plan@.len() == compiled_members(info.members@.take(i as int)).len(),
            forall|k: int|
                0 <= k < plan@.len() ==> {
                    &&& (#[trigger] plan@[k]).0@ == compiled_members(info.members@.take(i as int))[k].name@
                    &&& plan@[k].1 == compile_conversion_of(
                        compiled_members(info.members@.take(i as int))[k].type_path@,
                    )
                },
    {
        proof {
            assert(info.members@.take(i + 1).drop_last() =~= info.members@.take(i as int));
            assert(info.members@.take(i + 1).last() == info.members@[i as int]);
        }
        let m = &info.members[i];
        if !m.offline {
            let conversion = if text_eq(&m.type_path, "Option < ResourcePathId >") {
                CompileConversion::PassiveReference
            } else if text_eq(&m.type_path, "Vec < ResourcePathId >") {
                CompileConversion::PassiveReferences
            } else {
                CompileConversion::Cloned
            };
            plan.push((m.name.clone(), conversion));
        }
    }
    proof {
        assert(info.members@.take(n as int) =~= info.members@);
    }
    plan
}

/// The generated `extract_resource_dependencies`: what each member adds to
/// the dependencies, in order, and whether the function returns no list at
/// all, which it does whenever the container has a member.
pub fn extract_dependencies_plan(info: &DataContainerMetaInfo) -> (r: (bool, Vec<DependencyUse>))
    ensures
        r.0 == (info.members@.len() > 0),
        r.1@.len() == info.members@.len(),
        forall|k: int| 0 <= k < r.1@.len() ==> #[trigger] r.1@[k] == dependency_use_of(info.members@[k].type_path@),
{
    let mut uses: Vec<DependencyUse> = Vec::new();
    let n = info.members.len();
    for i in 0..n
        invariant
            n == info.members@.len(),
            uses@.len() == i,
            forall|k: int| 0 <= k < i ==> #[trigger] uses@[k] == dependency_use_of(info.members@[k].type_path@),
    {
        let m = &info.members[i];
        let u = if text_eq(&m.type_path, "Option < ResourcePathId >") {
            DependencyUse::Optional
        } else if text_eq(&m.type_path, "Vec < ResourcePathId >") {
            DependencyUse::All
        } else {
            DependencyUse::Ignored
        };
        uses.push(u);
    }
    (uses.len() > 0, uses)
}

/// Attributes other than `legion`, and `legion` attributes without an
/// argument group, change nothing of a member.
pub proof fn lemma_other_attributes_ignored(attrs: Seq<FieldAttribute>, i: int, a: AttrSpec)
    requires
        0 <= i,
        forall|k: int| i <= k < attrs.len() ==> !((#[trigger] attrs[k]).is_legion && attrs[k].arguments is Some),
    ensures
        parse_attributes(attrs, i, a) == Some(a),
    decreases attrs.len() - i,
{
    if i < attrs.len() {
        lemma_other_attributes_ignored(attrs, i + 1, a);
    }
}

} // verus!
