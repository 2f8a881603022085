//! The text side of reading the SVG that LaTeX typesetting produces: element
//! tags, attribute values, path-data tokens and path commands. Coordinates
//! stay as their source text; the geometry is computed by the caller.

use vstd::prelude::*;

use crate::chars::{chars_of, string_of};
use crate::expr::{is_digit, is_digit_exec};

verus! {

// ---------------------------------------------------------------- searching

/// Whether `pat` occurs in `s` at position `k`.
pub open spec fn occurs_at(s: Seq<char>, pat: Seq<char>, k: int) -> bool {
    0 <= k && k + pat.len() <= s.len() && s.subrange(k, k + pat.len()) == pat
}

/// The first position at or after `from` where `pat` occurs.
pub open spec fn find_from(s: Seq<char>, pat: Seq<char>, from: int) -> Option<int>
    decreases s.len() + 1 - from,
{
    if from < 0 || from + pat.len() > s.len() {
        None
    } else if occurs_at(s, pat, from) {
        Some(from)
    } else {
        find_from(s, pat, from + 1)
    }
}

/// A found position is an occurrence at or after the start.
pub proof fn lemma_find_from(s: Seq<char>, pat: Seq<char>, from: int)
    requires
        0 <= from,
    ensures
        find_from(s, pat, from) matches Some(k) ==> from <= k && occurs_at(s, pat, k),
        find_from(s, pat, from) matches Some(k) ==> forall|j: int| from <= j < k ==> !occurs_at(s, pat, j),
        find_from(s, pat, from) is None ==> forall|j: int| from <= j ==> !occurs_at(s, pat, j),
    decreases s.len() + 1 - from,
{
    if !(from < 0 || from + pat.len() > s.len()) && !occurs_at(s, pat, from) {
        lemma_find_from(s, pat, from + 1);
    }
}

fn occurs_at_exec(s: &Vec<char>, pat: &Vec<char>, k: usize) -> (r: bool)
    requires
        k + pat.len() <= s.len(),
    ensures
        r == occurs_at(s@, pat@, k as int),
{
    let mut j: usize = 0;
    while j < pat.len()
        invariant
            j <= pat.len(),
            k + pat.len() <= s.len(),
            forall|m: int| 0 <= m < j ==> s[k + m] == pat[m],
        decreases pat.len() - j,
    {
        if s[k + j] != pat[j] {
            assert(s@.subrange(k as int, k + pat.len())[j as int] != pat@[j as int]);
            return false;
        }
        j = j + 1;
    }
    assert(s@.subrange(k as int, k + pat.len()) =~= pat@);
    true
}

/// The first occurrence of `pat` in `s` at or after `from`.
fn find_exec(s: &Vec<char>, pat: &Vec<char>, from: usize) -> (r: Option<usize>)
    ensures
        match r {
            Some(k) => find_from(s@, pat@, from as int) == Some(k as int),
            None => find_from(s@, pat@, from as int) is None,
        },
{
    if pat.len() > s.len() {
        return None;
    }
    let last = s.len() - pat.len();
    let mut k = from;
    loop
        invariant
            from <= k,
            last + pat.len() == s.len(),
            find_from(s@, pat@, from as int) == find_from(s@, pat@, k as int),
        decreases last + 1 - k,
    {
        if k > last {
            return None;
        }
        if occurs_at_exec(s, pat, k) {
            return Some(k);
        }
        if k == last {
            assert(find_from(s@, pat@, k + 1) is None);
            return None;
        }
        k = k + 1;
    }
}

// ---------------------------------------------------------------- tags and attributes

/// The tags `<...../>` that start with `open`, in order: each runs from an
/// occurrence of `open` to the first `/>` after it, and the scan resumes
/// after that `/>`; it stops at the first opening without a `/>`.
pub open spec fn tags_from(s: Seq<char>, open: Seq<char>, from: int) -> Seq<Seq<char>>
    decreases s.len() + 1 - from,
{
    match find_from(s, open, from) {
        None => Seq::empty(),
        Some(a) => match find_from(s, seq!['/', '>'], a) {
            None => Seq::empty(),
            Some(e) => {
                proof {
                    if from >= 0 {
                        lemma_find_from(s, open, from);
                        lemma_find_from(s, seq!['/', '>'], a);
                    }
                }
                if 0 <= from < e + 2 {
                    seq![s.subrange(a, e + 2)] + tags_from(s, open, e + 2)
                } else {
                    Seq::empty()
                }
            },
        },
    }
}

/// The self-closing tags of `svg` that start with `open` (such as `<path `).
pub fn find_tags(svg: &str, open: &str) -> (tags: Vec<String>)
    ensures
        tags@.map_values(|t: String| t@) == tags_from(svg@, open@, 0),
{
    let s = chars_of(svg);
    let pat = chars_of(open);
    tags_exec(&s, &pat)
}

fn tags_exec(s: &Vec<char>, pat: &Vec<char>) -> (tags: Vec<String>)
    ensures
        tags@.map_values(|t: String| t@) == tags_from(s@, pat@, 0),
{
    let mut close: Vec<char> = Vec::new();
    close.push('/');
    close.push('>');
    assert(close@ =~= seq!['/', '>']);
    let mut tags: Vec<String> = Vec::new();
    let mut from: usize = 0;
    assert(tags@.map_values(|t: String| t@) =~= Seq::<Seq<char>>::empty());
    loop
        invariant
            close@ == seq!['/', '>'],
            tags_from(s@, pat@, 0) == tags@.map_values(|t: String| t@) + tags_from(
                s@,
                pat@,
                from as int,
            ),
        decreases s.len() + 1 - from,
    {
        let ghost before = tags@.map_values(|t: String| t@);
        let a = match find_exec(s, pat, from) {
            Some(a) => a,
            None => {
                assert(before + Seq::<Seq<char>>::empty() =~= before);
                return tags;
            },
        };
        let e = match find_exec(s, &close, a) {
            Some(e) => e,
            None => {
                assert(before + Seq::<Seq<char>>::empty() =~= before);
                return tags;
            },
        };
        proof {
            lemma_find_from(s@, pat@, from as int);
            lemma_find_from(s@, close@, a as int);
        }
        let mut piece: Vec<char> = Vec::new();
        let mut k = a;
        while k < e + 2
            invariant
                a <= k <= e + 2 <= s.len(),
                piece@ == s@.subrange(a as int, k as int),
            decreases e + 2 - k,
        {
            piece.push(s[k]);
            proof {
                assert(piece@ =~= s@.subrange(a as int, k + 1));
            }
            k = k + 1;
        }
        tags.push(string_of(piece.as_slice()));
        proof {
            assert(tags@.map_values(|t: String| t@) =~= before.push(s@.subrange(a as int, e + 2)));
            assert(before + (seq![s@.subrange(a as int, e + 2)] + tags_from(s@, pat@, e + 2))
                =~= before.push(s@.subrange(a as int, e + 2)) + tags_from(s@, pat@, e + 2));
        }
        from = e + 2;
    }
}

/// Whether an attribute name starting at `p` stands on its own: at the start
/// of the tag or after a space or `<`.
pub open spec fn at_name_boundary(t: Seq<char>, p: int) -> bool {
    p == 0 || (0 < p <= t.len() && (t[p - 1] == ' ' || t[p - 1] == '<'))
}

/// The value of the first `name=q...q` (with `pat` being `name=q`) at or
/// after `from` that starts at a name boundary and has a closing quote.
pub open spec fn quoted_value(t: Seq<char>, pat: Seq<char>, q: char, from: int) -> Option<Seq<char>>
    decreases t.len() + 1 - from,
{
    match find_from(t, pat, from) {
        None => None,
        Some(p) => {
            proof {
                if from >= 0 {
                    lemma_find_from(t, pat, from);
                }
            }
            let start = p + pat.len();
            match find_from(t, seq![q], start) {
                Some(e) => if at_name_boundary(t, p) {
                    Some(t.subrange(start, e))
                } else if 0 <= from < p + 1 {
                    quoted_value(t, pat, q, p + 1)
                } else {
                    None
                },
                None => if 0 <= from < p + 1 {
                    quoted_value(t, pat, q, p + 1)
                } else {
                    None
                },
            }
        },
    }
}

/// The value of attribute `name` in a tag: single quotes are tried first,
/// then double quotes. A name only counts at the start of the tag or after a
/// space or `<`, so `d='...'` is not found inside `id='...'`.
pub open spec fn attr_value(tag: Seq<char>, name: Seq<char>) -> Option<Seq<char>> {
    match quoted_value(tag, name + seq!['=', '\''], '\'', 0) {
        Some(v) => Some(v),
        None => quoted_value(tag, name + seq!['=', '"'], '"', 0),
    }
}

fn quoted_value_exec(t: &Vec<char>, pat: &Vec<char>, q: char) -> (r: Option<String>)
    requires
        pat.len() >= 1,
    ensures
        match r {
            Some(v) => quoted_value(t@, pat@, q, 0) == Some(v@),
            None => quoted_value(t@, pat@, q, 0) is None,
        },
{
    let mut qv: Vec<char> = Vec::new();
    qv.push(q);
    assert(qv@ =~= seq![q]);
    let mut from: usize = 0;
    loop
        invariant
            qv@ == seq![q],
            pat.len() >= 1,
            quoted_value(t@, pat@, q, 0) == quoted_value(t@, pat@, q, from as int),
        decreases t.len() + 1 - from,
    {
        let p = match find_exec(t, pat, from) {
            Some(p) => p,
            None => return None,
        };
        proof {
            lemma_find_from(t@, pat@, from as int);
        }
        let start = p + pat.len();
        let boundary = p == 0 || t[p - 1] == ' ' || t[p - 1] == '<';
        match find_exec(t, &qv, start) {
            Some(e) => {
                if boundary {
                    proof {
                        lemma_find_from(t@, qv@, start as int);
                    }
                    let mut piece: Vec<char> = Vec::new();
                    let mut k = start;
                    while k < e
                        invariant
                            start <= k <= e < t.len(),
                            piece@ == t@.subrange(start as int, k as int),
                        decreases e - k,
                    {
                        piece.push(t[k]);
                        proof {
                            assert(piece@ =~= t@.subrange(start as int, k + 1));
                        }
                        k = k + 1;
                    }
                    return Some(string_of(piece.as_slice()));
                }
            },
            None => {},
        }
        from = p + 1;
    }
}

/// The value of attribute `name` in an XML tag, if present.
pub fn extract_attr(tag: &str, name: &str) -> (r: Option<String>)
    ensures
        match r {
            Some(v) => attr_value(tag@, name@) == Some(v@),
            None => attr_value(tag@, name@) is None,
        },
{
    let t = chars_of(tag);
    let n = chars_of(name);
    attr_exec(&t, &n)
}

fn attr_exec(t: &Vec<char>, n: &Vec<char>) -> (r: Option<String>)
    ensures
        match r {
            Some(v) => attr_value(t@, n@) == Some(v@),
            None => attr_value(t@, n@) is None,
        },
{
    let mut single = n.clone();
    single.push('=');
    single.push('\'');
    assert(single@ =~= n@ + seq!['=', '\'']);
    if let Some(v) = quoted_value_exec(t, &single, '\'') {
        return Some(v);
    }
    let mut double = n.clone();
    double.push('=');
    double.push('"');
    assert(double@ =~= n@ + seq!['=', '"']);
    quoted_value_exec(t, &double, '"')
}

/// A link target without its leading `#`, if it has one.
pub fn strip_hash(href: &str) -> (r: String)
    ensures
        r@ == if href@.len() > 0 && href@[0] == '#' { href@.drop_first() } else { href@ },
{
    let cs = chars_of(href);
    if cs.len() > 0 && cs[0] == '#' {
        let mut rest: Vec<char> = Vec::new();
        let mut k: usize = 1;
        while k < cs.len()
            invariant
                1 <= k <= cs.len(),
                rest@ == cs@.subrange(1, k as int),
            decreases cs.len() - k,
        {
            rest.push(cs[k]);
            proof {
                assert(rest@ =~= cs@.subrange(1, k + 1));
            }
            k = k + 1;
        }
        assert(cs@.subrange(1, cs.len() as int) =~= cs@.drop_first());
        string_of(rest.as_slice())
    } else {
        href.to_owned()
    }
}

// ---------------------------------------------------------------- drawing elements

pub open spec fn name_id() -> Seq<char> {
    seq!['i', 'd']
}

pub open spec fn name_d() -> Seq<char> {
    seq!['d']
}

pub open spec fn name_x() -> Seq<char> {
    seq!['x']
}

pub open spec fn name_y() -> Seq<char> {
    seq!['y']
}

pub open spec fn name_width() -> Seq<char> {
    seq!['w', 'i', 'd', 't', 'h']
}

pub open spec fn name_height() -> Seq<char> {
    seq!['h', 'e', 'i', 'g', 'h', 't']
}

pub open spec fn name_href() -> Seq<char> {
    seq!['x', 'l', 'i', 'n', 'k', ':', 'h', 'r', 'e', 'f']
}

pub open spec fn open_path() -> Seq<char> {
    seq!['<', 'p', 'a', 't', 'h', ' ']
}

pub open spec fn open_use() -> Seq<char> {
    seq!['<', 'u', 's', 'e', ' ']
}

pub open spec fn open_rect() -> Seq<char> {
    seq!['<', 'r', 'e', 'c', 't', ' ']
}

/// The text without a leading `#`.
pub open spec fn without_hash(h: Seq<char>) -> Seq<char> {
    if h.len() > 0 && h[0] == '#' {
        h.drop_first()
    } else {
        h
    }
}

/// A glyph definition: the `id` and the path data `d` of a `<path .../>` tag
/// that has both.
pub open spec fn path_def(tag: Seq<char>) -> Option<(Seq<char>, Seq<char>)> {
    match (attr_value(tag, name_id()), attr_value(tag, name_d())) {
        (Some(id), Some(d)) => Some((id, d)),
        _ => None,
    }
}

/// The glyph definitions of a list of path tags, in order.
pub open spec fn path_defs_of(tags: Seq<Seq<char>>) -> Seq<(Seq<char>, Seq<char>)>
    decreases tags.len(),
{
    if tags.len() == 0 {
        Seq::empty()
    } else {
        let rest = path_defs_of(tags.drop_last());
        match path_def(tags.last()) {
            Some(p) => rest.push(p),
            None => rest,
        }
    }
}

/// A placed glyph, from a `<use .../>` tag: the texts of its `x` and `y`
/// (when present) and the id it refers to (its `xlink:href` without the `#`).
#[derive(Debug, Clone, PartialEq, Eq)]
pub struct UseTag {
    pub x: Option<String>,
    pub y: Option<String>,
    pub href: String,
}

pub open spec fn opt_view(o: Option<String>) -> Option<Seq<char>> {
    match o {
        Some(v) => Some(v@),
        None => None,
    }
}

pub open spec fn use_tag_view(u: UseTag) -> (Option<Seq<char>>, Option<Seq<char>>, Seq<char>) {
    (opt_view(u.x), opt_view(u.y), u.href@)
}

/// The placed glyph of a use tag; tags without a link are skipped.
pub open spec fn use_of(tag: Seq<char>) -> Option<(Option<Seq<char>>, Option<Seq<char>>, Seq<char>)> {
    match attr_value(tag, name_href()) {
        Some(h) => Some((attr_value(tag, name_x()), attr_value(tag, name_y()), without_hash(h))),
        None => None,
    }
}

pub open spec fn uses_of(tags: Seq<Seq<char>>) -> Seq<(Option<Seq<char>>, Option<Seq<char>>, Seq<char>)>
    decreases tags.len(),
{
    if tags.len() == 0 {
        Seq::empty()
    } else {
        let rest = uses_of(tags.drop_last());
        match use_of(tags.last()) {
            Some(u) => rest.push(u),
            None => rest,
        }
    }
}

/// A filled rectangle (such as a fraction bar), from a `<rect .../>` tag:
/// the texts of its position and size, when present.
#[derive(Debug, Clone, PartialEq, Eq)]
pub struct RectTag {
    pub x: Option<String>,
    pub y: Option<String>,
    pub width: Option<String>,
    pub height: Option<String>,
}

pub open spec fn rect_tag_view(r: RectTag) -> Seq<Option<Seq<char>>> {
    seq![opt_view(r.x), opt_view(r.y), opt_view(r.width), opt_view(r.height)]
}

pub open spec fn rect_of(tag: Seq<char>) -> Seq<Option<Seq<char>>> {
    seq![
        attr_value(tag, name_x()),
        attr_value(tag, name_y()),
        attr_value(tag, name_width()),
        attr_value(tag, name_height()),
    ]
}

fn opt_attr(t: &Vec<char>, n: &Vec<char>) -> (r: Option<String>)
    ensures
        opt_view(r) == attr_value(t@, n@),
{
    attr_exec(t, n)
}

/// The glyph definitions of a dvisvgm drawing: `(id, d)` of each `<path .../>`
/// tag that has both, in document order.
pub fn path_defs(svg: &str) -> (defs: Vec<(String, String)>)
    ensures
        defs@.map_values(|p: (String, String)| (p.0@, p.1@)) == path_defs_of(
            tags_from(svg@, open_path(), 0),
        ),
{
    let s = chars_of(svg);
    let open = chars_of("<path ");
    let nid = chars_of("id");
    let nd = chars_of("d");
    proof {
        reveal_strlit("<path ");
        reveal_strlit("id");
        reveal_strlit("d");
        assert(open@ =~= open_path());
        assert(nid@ =~= name_id());
        assert(nd@ =~= name_d());
    }
    let tags = tags_exec(&s, &open);
    let ghost tv = tags@.map_values(|t: String| t@);
    let mut defs: Vec<(String, String)> = Vec::new();
    let mut i: usize = 0;
    while i < tags.len()
        invariant
            i <= tags.len(),
            tv == tags@.map_values(|t: String| t@),
            nid@ == name_id(),
            nd@ == name_d(),
            defs@.map_values(|p: (String, String)| (p.0@, p.1@)) == path_defs_of(
                tv.take(i as int),
            ),
        decreases tags.len() - i,
    {
        let t = chars_of(tags[i].as_str());
        let ghost before = defs@.map_values(|p: (String, String)| (p.0@, p.1@));
        assert(tv.take(i + 1).drop_last() =~= tv.take(i as int));
        assert(tv.take(i + 1).last() == t@);
        match (attr_exec(&t, &nid), attr_exec(&t, &nd)) {
            (Some(id), Some(d)) => {
                defs.push((id, d));
                assert(defs@.map_values(|p: (String, String)| (p.0@, p.1@)) =~= before.push(
                    (defs@.last().0@, defs@.last().1@),
                ));
            },
            _ => {},
        }
        i = i + 1;
    }
    assert(tv.take(tags.len() as int) =~= tv);
    defs
}

/// The glyph placements of a dvisvgm drawing: each `<use .../>` tag with an
/// `xlink:href`, in document order.
pub fn use_elements(svg: &str) -> (uses: Vec<UseTag>)
    ensures
        uses@.map_values(|u: UseTag| use_tag_view(u)) == uses_of(tags_from(svg@, open_use(), 0)),
{
    let s = chars_of(svg);
    let open = chars_of("<use ");
    let nh = chars_of("xlink:href");
    let nx = chars_of("x");
    let ny = chars_of("y");
    proof {
        reveal_strlit("<use ");
        reveal_strlit("xlink:href");
        reveal_strlit("x");
        reveal_strlit("y");
        assert(open@ =~= open_use());
        assert(nh@ =~= name_href());
        assert(nx@ =~= name_x());
        assert(ny@ =~= name_y());
    }
    let tags = tags_exec(&s, &open);
    let ghost tv = tags@.map_values(|t: String| t@);
    let mut uses: Vec<UseTag> = Vec::new();
    let mut i: usize = 0;
    while i < tags.len()
        invariant
            i <= tags.len(),
            tv == tags@.map_values(|t: String| t@),
            nh@ == name_href(),
            nx@ == name_x(),
            ny@ == name_y(),
            uses@.map_values(|u: UseTag| use_tag_view(u)) == uses_of(tv.take(i as int)),
        decreases tags.len() - i,
    {
        let t = chars_of(tags[i].as_str());
        let ghost before = uses@.map_values(|u: UseTag| use_tag_view(u));
        assert(tv.take(i + 1).drop_last() =~= tv.take(i as int));
        assert(tv.take(i + 1).last() == t@);
        match attr_exec(&t, &nh) {
            Some(h) => {
                let x = opt_attr(&t, &nx);
                let y = opt_attr(&t, &ny);
                let href = strip_hash(h.as_str());
                let u = UseTag { x, y, href };
                assert(Some(use_tag_view(u)) == use_of(t@));
                uses.push(u);
                assert(uses@.map_values(|u: UseTag| use_tag_view(u)) =~= before.push(
                    use_tag_view(u),
                ));
            },
            None => {},
        }
        i = i + 1;
    }
    assert(tv.take(tags.len() as int) =~= tv);
    uses
}

/// The rectangles of a dvisvgm drawing: each `<rect .../>` tag, in document
/// order.
pub fn rect_elements(svg: &str) -> (rects: Vec<RectTag>)
    ensures
        rects@.map_values(|r: RectTag| rect_tag_view(r)) == tags_from(svg@, open_rect(), 0).map_values(
            |t: Seq<char>| rect_of(t),
        ),
{
    let s = chars_of(svg);
    let open = chars_of("<rect ");
    let nx = chars_of("x");
    let ny = chars_of("y");
    let nw = chars_of("width");
    let nh = chars_of("height");
    proof {
        reveal_strlit("<rect ");
        reveal_strlit("x");
        reveal_strlit("y");
        reveal_strlit("width");
        reveal_strlit("height");
        assert(open@ =~= open_rect());
        assert(nx@ =~= name_x());
        assert(ny@ =~= name_y());
        assert(nw@ =~= name_width());
        assert(nh@ =~= name_height());
    }
    let tags = tags_exec(&s, &open);
    let ghost tv = tags@.map_values(|t: String| t@);
    let mut rects: Vec<RectTag> = Vec::new();
    let mut i: usize = 0;
    while i < tags.len()
        invariant
            i <= tags.len(),
            tv == tags@.map_values(|t: String| t@),
            nx@ == name_x(),
            ny@ == name_y(),
            nw@ == name_width(),
            nh@ == name_height(),
            rects@.map_values(|r: RectTag| rect_tag_view(r)) == tv.take(i as int).map_values(
                |t: Seq<char>| rect_of(t),
            ),
        decreases tags.len() - i,
    {
        let t = chars_of(tags[i].as_str());
        let ghost before = rects@.map_values(|r: RectTag| rect_tag_view(r));
        let r = RectTag {
            x: opt_attr(&t, &nx),
            y: opt_attr(&t, &ny),
            width: opt_attr(&t, &nw),
            height: opt_attr(&t, &nh),
        };
        assert(rect_tag_view(r) =~= rect_of(t@));
        assert(tv[i as int] == t@);
        let ghost rv = rect_tag_view(r);
        rects.push(r);
        assert(rects@.map_values(|r: RectTag| rect_tag_view(r)) =~= before.push(rv));
        assert(tv.take(i + 1).map_values(|t: Seq<char>| rect_of(t)) =~= tv.take(i as int).map_values(
            |t: Seq<char>| rect_of(t),
        ).push(rect_of(t@)));
        i = i + 1;
    }
    assert(tv.take(tags.len() as int) =~= tv);
    rects
}

/// Whether definition `k` is the one a link to `href` resolves to: the last
/// definition with that id, as a later definition replaces an earlier one.
pub open spec fn resolves_to(defs: Seq<(Seq<char>, Seq<char>)>, href: Seq<char>, k: int) -> bool {
    0 <= k < defs.len() && defs[k].0 == href && forall|j: int|
        k < j < defs.len() ==> defs[j].0 != href
}

/// The definition a link to `href` names, if any.
pub fn find_def(defs: &Vec<(String, String)>, href: &str) -> (r: Option<usize>)
    ensures
        match r {
            Some(k) => resolves_to(defs@.map_values(|p: (String, String)| (p.0@, p.1@)), href@, k as int),
            None => forall|j: int| 0 <= j < defs.len() ==> defs@[j].0@ != href@,
        },
{
    let ghost dv = defs@.map_values(|p: (String, String)| (p.0@, p.1@));
    let mut k = defs.len();
    while k > 0
        invariant
            k <= defs.len(),
            dv == defs@.map_values(|p: (String, String)| (p.0@, p.1@)),
            forall|j: int| k <= j < defs.len() ==> defs@[j].0@ != href@,
        decreases k,
    {
        k = k - 1;
        if crate::chars::same_text(defs[k].0.as_str(), href) {
            return Some(k);
        }
    }
    None
}

// ---------------------------------------------------------------- path data

/// A path-data token: a command letter, or a number kept as its text.
#[derive(Debug, Clone, PartialEq, Eq)]
pub enum PathToken {
    Command(char),
    Number(String),
}

pub enum SpecPathToken {
    Command(char),
    Number(Seq<char>),
}

impl View for PathToken {
    type V = SpecPathToken;

    open spec fn view(&self) -> SpecPathToken {
        match self {
            PathToken::Command(c) => SpecPathToken::Command(*c),
            PathToken::Number(t) => SpecPathToken::Number(t@),
        }
    }
}

pub open spec fn path_tokens_view(ts: Seq<PathToken>) -> Seq<SpecPathToken> {
    ts.map_values(|t: PathToken| t@)
}

/// End of the run of digits starting at `i`.
pub open spec fn digits_end(cs: Seq<char>, i: int) -> int
    decreases cs.len() - i,
{
    if 0 <= i < cs.len() && is_digit(cs[i]) {
        digits_end(cs, i + 1)
    } else {
        i
    }
}

/// End of the number starting at `i`: an optional sign, digits, and an
/// optional dot followed by digits. A sign or a dot therefore ends the number
/// before it, which is how compact path data separates numbers.
pub open spec fn number_end_at(cs: Seq<char>, i: int) -> int {
    let j = if 0 <= i < cs.len() && (cs[i] == '-' || cs[i] == '+') {
        i + 1
    } else {
        i
    };
    let k = digits_end(cs, j);
    if 0 <= k < cs.len() && cs[k] == '.' {
        digits_end(cs, k + 1)
    } else {
        k
    }
}

/// An ASCII letter, which in path data is a command.
pub open spec fn is_letter(c: char) -> bool {
    ('a' <= c && c <= 'z') || ('A' <= c && c <= 'Z')
}

fn is_letter_exec(c: char) -> (r: bool)
    ensures
        r == is_letter(c),
{
    ('a' <= c && c <= 'z') || ('A' <= c && c <= 'Z')
}

pub open spec fn starts_number(c: char) -> bool {
    c == '-' || c == '+' || c == '.' || is_digit(c)
}

pub proof fn lemma_digits_end(cs: Seq<char>, i: int)
    requires
        0 <= i <= cs.len(),
    ensures
        i <= digits_end(cs, i) <= cs.len(),
    decreases cs.len() - i,
{
    if i < cs.len() {
        lemma_digits_end(cs, i + 1);
    }
}

/// A number that starts at `i` takes at least one character and ends inside
/// the text.
pub proof fn lemma_number_end_at(cs: Seq<char>, i: int)
    requires
        0 <= i < cs.len(),
        starts_number(cs[i]),
    ensures
        i < number_end_at(cs, i) <= cs.len(),
{
    let j = if cs[i] == '-' || cs[i] == '+' { i + 1 } else { i };
    lemma_digits_end(cs, j);
    lemma_digits_end(cs, i + 1);
    let k = digits_end(cs, j);
    if 0 <= k < cs.len() && cs[k] == '.' {
        lemma_digits_end(cs, k + 1);
    }
}

/// The tokens of path data from position `i` on: letters are commands,
/// numbers are as `number_end_at` reads them, everything else (spaces,
/// commas) separates.
pub open spec fn path_tokens_from(cs: Seq<char>, i: int) -> Seq<SpecPathToken>
    decreases cs.len() + 1 - i,
{
    if i < 0 || i >= cs.len() {
        Seq::empty()
    } else if is_letter(cs[i]) {
        seq![SpecPathToken::Command(cs[i])] + path_tokens_from(cs, i + 1)
    } else if starts_number(cs[i]) {
        let e = number_end_at(cs, i);
        proof {
            lemma_number_end_at(cs, i);
        }
        seq![SpecPathToken::Number(cs.subrange(i, e))] + path_tokens_from(cs, e)
    } else {
        path_tokens_from(cs, i + 1)
    }
}

fn digits_end_exec(cs: &Vec<char>, i: usize) -> (e: usize)
    requires
        i <= cs.len(),
    ensures
        e == digits_end(cs@, i as int),
        i <= e <= cs.len(),
{
    let mut e = i;
    while e < cs.len() && is_digit_exec(cs[e])
        invariant
            i <= e <= cs.len(),
            digits_end(cs@, e as int) == digits_end(cs@, i as int),
        decreases cs.len() - e,
    {
        e = e + 1;
    }
    e
}

/// Split SVG path data into command letters and numbers.
pub fn tokenize_path(d: &str) -> (tokens: Vec<PathToken>)
    ensures
        path_tokens_view(tokens@) == path_tokens_from(d@, 0),
{
    let cs = chars_of(d);
    let mut tokens: Vec<PathToken> = Vec::new();
    let mut i: usize = 0;
    assert(path_tokens_view(tokens@) + path_tokens_from(cs@, 0) =~= path_tokens_from(cs@, 0));
    while i < cs.len()
        invariant
            i <= cs.len(),
            cs@ == d@,
            path_tokens_from(cs@, 0) == path_tokens_view(tokens@) + path_tokens_from(cs@, i as int),
        decreases cs.len() - i,
    {
        let c = cs[i];
        let ghost prev = path_tokens_view(tokens@);
        if is_letter_exec(c) {
            tokens.push(PathToken::Command(c));
            proof {
                assert(path_tokens_view(tokens@) =~= prev + seq![SpecPathToken::Command(c)]);
                assert(prev + (seq![SpecPathToken::Command(c)] + path_tokens_from(cs@, i + 1))
                    =~= path_tokens_view(tokens@) + path_tokens_from(cs@, i + 1));
            }
            i = i + 1;
        } else if c == '-' || c == '+' || c == '.' || is_digit_exec(c) {
            let j = if c == '-' || c == '+' { i + 1 } else { i };
            let k = digits_end_exec(&cs, j);
            let e = if k < cs.len() && cs[k] == '.' { digits_end_exec(&cs, k + 1) } else { k };
            proof {
                lemma_number_end_at(cs@, i as int);
            }
            assert(e == number_end_at(cs@, i as int));
            let mut text: Vec<char> = Vec::new();
            let mut m = i;
            while m < e
                invariant
                    i <= m <= e <= cs.len(),
                    text@ == cs@.subrange(i as int, m as int),
                decreases e - m,
            {
                text.push(cs[m]);
                proof {
                    assert(text@ =~= cs@.subrange(i as int, m + 1));
                }
                m = m + 1;
            }
            let ghost tv = text@;
            tokens.push(PathToken::Number(string_of(text.as_slice())));
            proof {
                assert(path_tokens_view(tokens@) =~= prev + seq![SpecPathToken::Number(tv)]);
                assert(prev + (seq![SpecPathToken::Number(tv)] + path_tokens_from(cs@, e as int))
                    =~= path_tokens_view(tokens@) + path_tokens_from(cs@, e as int));
            }
            i = e;
        } else {
            i = i + 1;
        }
    }
    assert(path_tokens_view(tokens@) + path_tokens_from(cs@, i as int) =~= path_tokens_view(tokens@));
    tokens
}

/// One drawing command of a path: its letter and its operands, which are
/// the `count` number tokens starting at token `first`. Repeated operand
/// groups after a command letter become repeated commands, and the groups
/// after the first one of a move become line commands.
#[derive(Debug, Clone, Copy, PartialEq, Eq)]
pub struct PathCommand {
    pub command: char,
    pub first: usize,
    pub count: usize,
}

pub open spec fn command_view(c: PathCommand) -> (char, int, int) {
    (c.command, c.first as int, c.count as int)
}

/// The number of operands a command letter takes; `None` for letters that
/// are not path commands (they are skipped).
pub open spec fn arity(c: char) -> Option<nat> {
    if c == 'M' || c == 'm' || c == 'L' || c == 'l' {
        Some(2)
    } else if c == 'H' || c == 'h' || c == 'V' || c == 'v' {
        Some(1)
    } else if c == 'C' || c == 'c' {
        Some(6)
    } else if c == 'S' || c == 's' || c == 'Q' || c == 'q' {
        Some(4)
    } else if c == 'Z' || c == 'z' {
        Some(0)
    } else {
        None
    }
}

pub open spec fn is_number_token(ts: Seq<SpecPathToken>, i: int) -> bool {
    0 <= i < ts.len() && ts[i] is Number
}

/// Tokens `j .. j + k` all exist and are numbers.
pub open spec fn numbers_at(ts: Seq<SpecPathToken>, j: int, k: int) -> bool {
    forall|m: int| j <= m < j + k ==> #[trigger] is_number_token(ts, m)
}

/// The line command that continues a move.
pub open spec fn line_after_move(c: char) -> char {
    if c == 'M' {
        'L'
    } else {
        'l'
    }
}

pub open spec fn prepend_commands(
    p: Seq<(char, int, int)>,
    r: Option<Seq<(char, int, int)>>,
) -> Option<Seq<(char, int, int)>> {
    match r {
        Some(rest) => Some(p + rest),
        None => None,
    }
}

/// The commands of the path tokens from `i` on, or `None` when a command
/// lacks an operand (a move needs one pair; a group started by a number
/// must be complete). Stray numbers and unknown letters are skipped.
pub open spec fn commands_from(ts: Seq<SpecPathToken>, i: int) -> Option<Seq<(char, int, int)>>
    decreases ts.len() + 1 - i, 0int,
{
    if i < 0 || i >= ts.len() {
        Some(Seq::empty())
    } else {
        match ts[i] {
            SpecPathToken::Number(_) => commands_from(ts, i + 1),
            SpecPathToken::Command(c) => match arity(c) {
                None => commands_from(ts, i + 1),
                Some(k) => if k == 0 {
                    prepend_commands(seq![(c, i + 1, 0int)], commands_from(ts, i + 1))
                } else if c == 'M' || c == 'm' {
                    if numbers_at(ts, i + 1, 2) {
                        proof {
                            assert(is_number_token(ts, i + 2));
                        }
                        prepend_commands(
                            seq![(c, i + 1, 2int)],
                            command_groups(ts, i + 3, line_after_move(c), 2),
                        )
                    } else {
                        None
                    }
                } else {
                    command_groups(ts, i + 1, c, k)
                },
            },
        }
    }
}

/// Repeated operand groups of command `c` (arity `k`) from token `j` on,
/// then the commands after them.
pub open spec fn command_groups(ts: Seq<SpecPathToken>, j: int, c: char, k: nat) -> Option<
    Seq<(char, int, int)>,
>
    decreases ts.len() + 1 - j, 1int,
{
    if j < 0 || j >= ts.len() {
        Some(Seq::empty())
    } else if ts[j] is Number {
        if k > 0 && numbers_at(ts, j, k as int) {
            proof {
                assert(is_number_token(ts, j + k - 1));
            }
            prepend_commands(seq![(c, j, k as int)], command_groups(ts, j + k, c, k))
        } else {
            None
        }
    } else {
        commands_from(ts, j)
    }
}

proof fn lemma_prepend_commands(
    a: Seq<(char, int, int)>,
    b: Seq<(char, int, int)>,
    r: Option<Seq<(char, int, int)>>,
)
    ensures
        prepend_commands(a, prepend_commands(b, r)) == prepend_commands(a + b, r),
{
    if let Some(rest) = r {
        assert(a + (b + rest) =~= (a + b) + rest);
    }
}

fn arity_exec(c: char) -> (r: Option<usize>)
    ensures
        match r {
            Some(k) => arity(c) == Some(k as nat),
            None => arity(c) is None,
        },
{
    if c == 'M' || c == 'm' || c == 'L' || c == 'l' {
        Some(2)
    } else if c == 'H' || c == 'h' || c == 'V' || c == 'v' {
        Some(1)
    } else if c == 'C' || c == 'c' {
        Some(6)
    } else if c == 'S' || c == 's' || c == 'Q' || c == 'q' {
        Some(4)
    } else if c == 'Z' || c == 'z' {
        Some(0)
    } else {
        None
    }
}

fn numbers_at_exec(tokens: &Vec<PathToken>, j: usize, k: usize) -> (r: bool)
    ensures
        r == numbers_at(path_tokens_view(tokens@), j as int, k as int),
{
    let ghost ts = path_tokens_view(tokens@);
    let mut m: usize = 0;
    while m < k
        invariant
            m <= k,
            ts == path_tokens_view(tokens@),
            forall|x: int| j <= x < j + m ==> #[trigger] is_number_token(ts, x),
        decreases k - m,
    {
        if j >= tokens.len() || m >= tokens.len() - j {
            assert(!is_number_token(ts, j + m));
            return false;
        }
        match &tokens[j + m] {
            PathToken::Number(_) => {},
            PathToken::Command(_) => {
                assert(!is_number_token(ts, j + m));
                return false;
            },
        }
        m = m + 1;
    }
    true
}

/// The drawing commands of a token list, or `None` when one lacks operands.
fn commands_checked(tokens: &Vec<PathToken>) -> (r: Option<Vec<PathCommand>>)
    ensures
        match r {
            Some(cs) => commands_from(path_tokens_view(tokens@), 0) == Some(
                cs@.map_values(|c: PathCommand| command_view(c)),
            ),
            None => commands_from(path_tokens_view(tokens@), 0) is None,
        },
{
    let ghost ts = path_tokens_view(tokens@);
    let mut out: Vec<PathCommand> = Vec::new();
    let mut i: usize = 0;
    proof {
        if let Some(rest) = commands_from(ts, 0) {
            assert(Seq::<(char, int, int)>::empty() + rest =~= rest);
        }
    }
    while i < tokens.len()
        invariant
            ts == path_tokens_view(tokens@),
            i <= tokens.len(),
            commands_from(ts, 0) == prepend_commands(
                out@.map_values(|c: PathCommand| command_view(c)),
                commands_from(ts, i as int),
            ),
        decreases tokens.len() - i,
    {
        let ghost prev = out@.map_values(|c: PathCommand| command_view(c));
        assert(ts[i as int] == tokens@[i as int]@);
        let c = match &tokens[i] {
            PathToken::Number(_) => {
                assert(commands_from(ts, i as int) == commands_from(ts, i + 1));
                i = i + 1;
                continue;
            },
            PathToken::Command(c) => *c,
        };
        assert(ts[i as int] == SpecPathToken::Command(c));
        let k = match arity_exec(c) {
            None => {
                assert(commands_from(ts, i as int) == commands_from(ts, i + 1));
                i = i + 1;
                continue;
            },
            Some(k) => k,
        };
        if k == 0 {
            out.push(PathCommand { command: c, first: i + 1, count: 0 });
            proof {
                assert(out@.map_values(|c: PathCommand| command_view(c)) =~= prev + seq![
                    (c, i + 1, 0int),
                ]);
                lemma_prepend_commands(prev, seq![(c, i + 1, 0int)], commands_from(ts, i + 1));
            }
            i = i + 1;
            continue;
        }
        let mut j = i + 1;
        let mut cmd = c;
        if c == 'M' || c == 'm' {
            if !numbers_at_exec(tokens, j, 2) {
                return None;
            }
            assert(is_number_token(ts, j + 1));
            out.push(PathCommand { command: c, first: j, count: 2 });
            proof {
                assert(out@.map_values(|c: PathCommand| command_view(c)) =~= prev + seq![(c, j as int, 2int)]);
                lemma_prepend_commands(
                    prev,
                    seq![(c, j as int, 2int)],
                    command_groups(ts, j + 2, line_after_move(c), 2),
                );
            }
            j = j + 2;
            cmd = if c == 'M' { 'L' } else { 'l' };
        }
        assert(commands_from(ts, 0) == prepend_commands(
            out@.map_values(|c: PathCommand| command_view(c)),
            command_groups(ts, j as int, cmd, k as nat),
        ));
        loop
            invariant
                ts == path_tokens_view(tokens@),
                i < j <= tokens.len(),
                k > 0,
                commands_from(ts, 0) == prepend_commands(
                    out@.map_values(|c: PathCommand| command_view(c)),
                    command_groups(ts, j as int, cmd, k as nat),
                ),
            ensures
                i < j <= tokens.len(),
                commands_from(ts, 0) == prepend_commands(
                    out@.map_values(|c: PathCommand| command_view(c)),
                    commands_from(ts, j as int),
                ),
            decreases tokens.len() - j,
        {
            if j >= tokens.len() {
                break;
            }
            assert(ts[j as int] == tokens@[j as int]@);
            let is_num = match &tokens[j] {
                PathToken::Number(_) => true,
                PathToken::Command(_) => false,
            };
            if !is_num {
                assert(command_groups(ts, j as int, cmd, k as nat) == commands_from(ts, j as int));
                break;
            }
            if !numbers_at_exec(tokens, j, k) {
                return None;
            }
            assert(is_number_token(ts, j + k - 1));
            let ghost before = out@.map_values(|c: PathCommand| command_view(c));
            out.push(PathCommand { command: cmd, first: j, count: k });
            proof {
                assert(out@.map_values(|c: PathCommand| command_view(c)) =~= before + seq![
                    (cmd, j as int, k as int),
                ]);
                lemma_prepend_commands(
                    before,
                    seq![(cmd, j as int, k as int)],
                    command_groups(ts, j + k, cmd, k as nat),
                );
            }
            j = j + k;
        }
        i = j;
    }
    proof {
        let v = out@.map_values(|c: PathCommand| command_view(c));
        assert(v + Seq::<(char, int, int)>::empty() =~= v);
    }
    Some(out)
}

/// The commands lie in token order from position `lo` on: each one's
/// operands are number tokens inside the token list, and each command's
/// operands end before the next command's begin.
pub open spec fn commands_in_order(ts: Seq<SpecPathToken>, cmds: Seq<(char, int, int)>, lo: int) -> bool {
    &&& forall|k: int|
        0 <= k < cmds.len() ==> {
            &&& lo <= (#[trigger] cmds[k]).1
            &&& cmds[k].1 + cmds[k].2 <= ts.len()
            &&& numbers_at(ts, cmds[k].1, cmds[k].2)
        }
    &&& forall|k: int| 0 <= k < cmds.len() - 1 ==> (#[trigger] cmds[k]).1 + cmds[k].2 <= cmds[k + 1].1
}

proof fn lemma_in_order_prepend(
    ts: Seq<SpecPathToken>,
    cmd: (char, int, int),
    rest: Seq<(char, int, int)>,
    lo: int,
)
    requires
        lo <= cmd.1,
        0 <= cmd.2,
        cmd.1 + cmd.2 <= ts.len(),
        numbers_at(ts, cmd.1, cmd.2),
        commands_in_order(ts, rest, cmd.1 + cmd.2),
    ensures
        commands_in_order(ts, seq![cmd] + rest, lo),
{
    let all = seq![cmd] + rest;
    assert forall|k: int| 0 <= k < all.len() implies {
        &&& lo <= (#[trigger] all[k]).1
        &&& all[k].1 + all[k].2 <= ts.len()
        &&& numbers_at(ts, all[k].1, all[k].2)
    } by {
        if k > 0 {
            assert(all[k] == rest[k - 1]);
            assert(lo <= rest[k - 1].1);
        }
    }
    assert forall|k: int| 0 <= k < all.len() - 1 implies (#[trigger] all[k]).1 + all[k].2 <= all[k + 1].1 by {
        assert(all[k + 1] == rest[k]);
        if k > 0 {
            assert(all[k] == rest[k - 1]);
        }
    }
}

proof fn lemma_in_order_lower(ts: Seq<SpecPathToken>, cmds: Seq<(char, int, int)>, lo: int, lo2: int)
    requires
        lo <= lo2,
        commands_in_order(ts, cmds, lo2),
    ensures
        commands_in_order(ts, cmds, lo),
{
    assert forall|k: int| 0 <= k < cmds.len() implies lo <= (#[trigger] cmds[k]).1 by {}
}

proof fn lemma_commands_in_order(ts: Seq<SpecPathToken>, i: int)
    requires
        0 <= i,
    ensures
        commands_from(ts, i) matches Some(c) ==> commands_in_order(ts, c, i),
    decreases ts.len() + 1 - i, 0int,
{
    if i < ts.len() {
        match ts[i] {
            SpecPathToken::Number(_) => {
                lemma_commands_in_order(ts, i + 1);
                if let Some(c) = commands_from(ts, i + 1) {
                    lemma_in_order_lower(ts, c, i, i + 1);
                }
            },
            SpecPathToken::Command(c) => match arity(c) {
                None => {
                    lemma_commands_in_order(ts, i + 1);
                    if let Some(r) = commands_from(ts, i + 1) {
                        lemma_in_order_lower(ts, r, i, i + 1);
                    }
                },
                Some(k) => if k == 0 {
                    lemma_commands_in_order(ts, i + 1);
                    if let Some(r) = commands_from(ts, i + 1) {
                        lemma_in_order_prepend(ts, (c, i + 1, 0int), r, i);
                    }
                } else if c == 'M' || c == 'm' {
                    if numbers_at(ts, i + 1, 2) {
                        assert(is_number_token(ts, i + 2));
                        lemma_groups_in_order(ts, i + 3, line_after_move(c), 2);
                        if let Some(r) = command_groups(ts, i + 3, line_after_move(c), 2) {
                            lemma_in_order_prepend(ts, (c, i + 1, 2int), r, i);
                        }
                    }
                } else {
                    lemma_groups_in_order(ts, i + 1, c, k);
                    if let Some(r) = command_groups(ts, i + 1, c, k) {
                        lemma_in_order_lower(ts, r, i, i + 1);
                    }
                },
            },
        }
    }
}

proof fn lemma_groups_in_order(ts: Seq<SpecPathToken>, j: int, c: char, k: nat)
    requires
        0 <= j,
    ensures
        command_groups(ts, j, c, k) matches Some(cs) ==> commands_in_order(ts, cs, j),
    decreases ts.len() + 1 - j, 1int,
{
    if j < ts.len() {
        if ts[j] is Number {
            if k > 0 && numbers_at(ts, j, k as int) {
                assert(is_number_token(ts, j + k - 1));
                lemma_groups_in_order(ts, j + k, c, k);
                if let Some(r) = command_groups(ts, j + k, c, k) {
                    lemma_in_order_prepend(ts, (c, j, k as int), r, j);
                }
            }
        } else {
            lemma_commands_in_order(ts, j);
        }
    }
}

/// The commands of well-formed path data read its tokens from left to
/// right: every command's operands are number tokens inside the token list,
/// and each command's operands end before the next command's begin.
pub proof fn lemma_path_commands_in_order(ts: Seq<SpecPathToken>)
    ensures
        commands_from(ts, 0) matches Some(c) ==> commands_in_order(ts, c, 0),
{
    lemma_commands_in_order(ts, 0);
}

/// What a path command names, as the SVG path grammar gives it: how many
/// `(x, y)` points and how many lone coordinates. A move or a line names
/// its end point; a cubic curve two control points and its end point; a
/// smooth cubic curve (its first control point is implied) and a quadratic
/// curve one control point and the end point; a horizontal or vertical line
/// one coordinate; a close nothing. Lower case letters are the relative
/// forms, with the same operands.
pub open spec fn command_operands(c: char) -> Option<(nat, nat)> {
    match c {
        'M' | 'm' | 'L' | 'l' => Some((1nat, 0nat)),
        'C' | 'c' => Some((3nat, 0nat)),
        'S' | 's' | 'Q' | 'q' => Some((2nat, 0nat)),
        'H' | 'h' | 'V' | 'v' => Some((0nat, 1nat)),
        'Z' | 'z' => Some((0nat, 0nat)),
        _ => None,
    }
}

/// The number of numbers a command takes: two per point, one per lone
/// coordinate.
pub open spec fn operand_count(c: char) -> Option<nat> {
    match command_operands(c) {
        Some((points, coordinates)) => Some(2 * points + coordinates),
        None => None,
    }
}

/// The operand count the tokenizer groups by is the one the grammar gives.
pub proof fn lemma_arity_is_operand_count(c: char)
    ensures
        arity(c) == operand_count(c),
{
}

/// Every command takes exactly the operands its letter names.
pub open spec fn counts_match(cmds: Seq<(char, int, int)>) -> bool {
    forall|k: int| 0 <= k < cmds.len() ==> operand_count((#[trigger] cmds[k]).0) == Some(cmds[k].2 as nat)
}

proof fn lemma_counts_prepend(cmd: (char, int, int), rest: Seq<(char, int, int)>)
    requires
        operand_count(cmd.0) == Some(cmd.2 as nat),
        0 <= cmd.2,
        counts_match(rest),
    ensures
        counts_match(seq![cmd] + rest),
{
    let all = seq![cmd] + rest;
    assert forall|k: int| 0 <= k < all.len() implies operand_count((#[trigger] all[k]).0) == Some(all[k].2 as nat) by {
        if k > 0 {
            assert(all[k] == rest[k - 1]);
        }
    }
}

proof fn lemma_commands_counts(ts: Seq<SpecPathToken>, i: int)
    ensures
        commands_from(ts, i) matches Some(c) ==> counts_match(c),
    decreases ts.len() + 1 - i, 0int,
{
    if 0 <= i < ts.len() {
        match ts[i] {
            SpecPathToken::Number(_) => {
                lemma_commands_counts(ts, i + 1);
            },
            SpecPathToken::Command(c) => match arity(c) {
                None => {
                    lemma_commands_counts(ts, i + 1);
                },
                Some(k) => {
                    lemma_arity_is_operand_count(c);
                    if k == 0 {
                        lemma_commands_counts(ts, i + 1);
                        if let Some(r) = commands_from(ts, i + 1) {
                            lemma_counts_prepend((c, i + 1, 0int), r);
                        }
                    } else if c == 'M' || c == 'm' {
                        if numbers_at(ts, i + 1, 2) {
                            assert(is_number_token(ts, i + 2));
                            lemma_groups_counts(ts, i + 3, line_after_move(c), 2);
                            if let Some(r) = command_groups(ts, i + 3, line_after_move(c), 2) {
                                lemma_counts_prepend((c, i + 1, 2int), r);
                            }
                        }
                    } else {
                        lemma_groups_counts(ts, i + 1, c, k);
                    }
                },
            },
        }
    }
}

proof fn lemma_groups_counts(ts: Seq<SpecPathToken>, j: int, c: char, k: nat)
    requires
        operand_count(c) == Some(k),
    ensures
        command_groups(ts, j, c, k) matches Some(cs) ==> counts_match(cs),
    decreases ts.len() + 1 - j, 1int,
{
    if 0 <= j < ts.len() {
        if ts[j] is Number {
            if k > 0 && numbers_at(ts, j, k as int) {
                assert(is_number_token(ts, j + k - 1));
                lemma_groups_counts(ts, j + k, c, k);
                if let Some(r) = command_groups(ts, j + k, c, k) {
                    lemma_counts_prepend((c, j, k as int), r);
                }
            }
        } else {
            lemma_commands_counts(ts, j);
        }
    }
}

/// Every command that well-formed path data splits into takes exactly the
/// operands its letter names: a quadratic curve four numbers (a control
/// point and an end point), a cubic curve six, and so on.
pub proof fn lemma_path_command_counts(ts: Seq<SpecPathToken>)
    ensures
        commands_from(ts, 0) matches Some(c) ==> counts_match(c),
{
    lemma_commands_counts(ts, 0);
}

/// Whether every command of the path tokens has its operands, so that
/// `path_commands` applies.
pub fn path_well_formed(tokens: &Vec<PathToken>) -> (ok: bool)
    ensures
        ok == (commands_from(path_tokens_view(tokens@), 0) is Some),
{
    commands_checked(tokens).is_some()
}

/// The drawing commands of well-formed path tokens, in order.
pub fn path_commands(tokens: &Vec<PathToken>) -> (commands: Vec<PathCommand>)
    requires
        commands_from(path_tokens_view(tokens@), 0) is Some,
    ensures
        Some(commands@.map_values(|c: PathCommand| command_view(c)))
            == commands_from(path_tokens_view(tokens@), 0),
        commands_in_order(
            path_tokens_view(tokens@),
            commands@.map_values(|c: PathCommand| command_view(c)),
            0,
        ),
        counts_match(commands@.map_values(|c: PathCommand| command_view(c))),
{
    proof {
        lemma_path_commands_in_order(path_tokens_view(tokens@));
        lemma_path_command_counts(path_tokens_view(tokens@));
    }
    match commands_checked(tokens) {
        Some(cs) => cs,
        None => Vec::new(),
    }
}

} // verus!
