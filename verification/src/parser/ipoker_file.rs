//! Reading an iPoker XML file: the document is parsed by `roxmltree` into a list of nodes;
//! the tournament's fields, the hands, their seats, cards and actions are then read from
//! that list. Amounts are exact decimals as written; sums are made by the caller.
use vstd::prelude::*;
use vstd::string::StringSliceAdditionalSpecFns;
use crate::parser::{Decimal, spec_parse_date, date_fits};
use crate::parser::expresso::{dec_is, parse_u8, split_on, all_digits, digits_value, views, cards_are};
use crate::parser::summaries::decs_are;
use crate::parser::ipoker::{words_cards, words_ascii_led};
use crate::parser::betclic_hand::or_text;
use crate::model::ActKind;
use crate::text::{chars_of, contains, contains_exec, same_chars, trim, trim_range, sub_vec, string_of, is_ws, is_ws_exec};
use crate::model::Card;

verus! {

// ---------------------------------------------------------------- the document

/// A node of an XML document as read by `roxmltree`: its id, its parent's id, whether it is
/// an element, its tag's local name (empty if not an element), its attributes (local name,
/// value) and its text: for an element, its first child when that is text; for a text or
/// comment node, its own text; none otherwise.
pub struct XmlNode {
    pub id: u32,
    pub parent: Option<u32>,
    pub element: bool,
    pub tag: String,
    pub attrs: Vec<(String, String)>,
    pub text: Option<String>,
}

/// A node as plain values: id, parent, element, tag, attributes, text.
pub type XmlView = (int, Option<int>, bool, Seq<char>, Seq<(Seq<char>, Seq<char>)>, Option<Seq<char>>);

pub open spec fn attrs_view(a: Seq<(String, String)>) -> Seq<(Seq<char>, Seq<char>)> {
    Seq::new(a.len(), |i: int| (a[i].0@, a[i].1@))
}

pub open spec fn node_view(n: XmlNode) -> XmlView {
    (
        n.id as int,
        match n.parent {
            Some(p) => Some(p as int),
            None => None,
        },
        n.element,
        n.tag@,
        attrs_view(n.attrs@),
        match n.text {
            Some(t) => Some(t@),
            None => None,
        },
    )
}

pub open spec fn nodes_view(v: Seq<XmlNode>) -> Seq<XmlView> {
    Seq::new(v.len(), |i: int| node_view(v[i]))
}

/// The nodes of the document that `roxmltree` reads from a text, in document order from
/// the document's root; none when the text is not well-formed XML.
pub uninterp spec fn xml_document(content: Seq<char>) -> Option<Seq<XmlView>>;

/// Parses an XML text with `roxmltree::Document::parse` and lists its nodes
/// (`Document::descendants`, from the root) as plain values. Claimed: the list is a function
/// of the text alone (`xml_document`); an error comes exactly when that function gives
/// none. The error's words are not stated.
#[verifier::external_body]
fn parse_xml(content: &str) -> (r: Result<Vec<XmlNode>, String>)
    ensures
        match r {
            Ok(v) => xml_document(content@) == Some(nodes_view(v@)),
            Err(_) => xml_document(content@) is None,
        },
{
    match roxmltree::Document::parse(content) {
        Ok(doc) => Ok(
            doc.descendants().map(|n| XmlNode {
                id: n.id().get(),
                parent: n.parent().map(|p| p.id().get()),
                element: n.is_element(),
                tag: n.tag_name().name().to_string(),
                attrs: n.attributes().map(|a| (a.name().to_string(), a.value().to_string())).collect(),
                text: n.text().map(|t| t.to_string()),
            }).collect(),
        ),
        Err(e) => Err(e.to_string()),
    }
}

// ---------------------------------------------------------------- finding nodes

/// Index of the first node from the `from`-th on that is an element child of node `pid`
/// with tag `name`.
pub open spec fn child_from(xs: Seq<XmlView>, pid: int, name: Seq<char>, from: int) -> Option<int>
    decreases xs.len() - from,
{
    if from < 0 || from >= xs.len() {
        None
    } else if xs[from].1 == Some(pid) && xs[from].2 && xs[from].3 == name {
        Some(from)
    } else {
        child_from(xs, pid, name, from + 1)
    }
}

/// Index of the first element child of node `pid` with tag `name`.
pub open spec fn child(xs: Seq<XmlView>, pid: int, name: Seq<char>) -> Option<int> {
    child_from(xs, pid, name, 0)
}

/// Indices of the element children with tag `name` of node `pid` among the first `k` nodes.
pub open spec fn kids(xs: Seq<XmlView>, pid: int, name: Seq<char>, k: int) -> Seq<int>
    decreases k,
{
    if k <= 0 {
        Seq::empty()
    } else {
        let prev = kids(xs, pid, name, k - 1);
        if xs[k - 1].1 == Some(pid) && xs[k - 1].2 && xs[k - 1].3 == name {
            prev.push(k - 1)
        } else {
            prev
        }
    }
}

/// The text of the first child `name` of node `pid`, trimmed; empty without one.
pub open spec fn child_text(xs: Seq<XmlView>, pid: int, name: Seq<char>) -> Seq<char> {
    match child(xs, pid, name) {
        Some(k) => match xs[k].5 {
            Some(t) => trim(t),
            None => Seq::empty(),
        },
        None => Seq::empty(),
    }
}

/// Value of the first attribute `name` from the `from`-th on.
pub open spec fn attr_from(a: Seq<(Seq<char>, Seq<char>)>, name: Seq<char>, from: int) -> Option<Seq<char>>
    decreases a.len() - from,
{
    if from < 0 || from >= a.len() {
        None
    } else if a[from].0 == name {
        Some(a[from].1)
    } else {
        attr_from(a, name, from + 1)
    }
}

/// Value of attribute `name` of a node.
pub open spec fn attr(x: XmlView, name: Seq<char>) -> Option<Seq<char>> {
    attr_from(x.4, name, 0)
}

/// Index of the root element: the first element whose parent is the document's root.
pub open spec fn root_elem_from(xs: Seq<XmlView>, from: int) -> Option<int>
    decreases xs.len() - from,
{
    if from < 0 || from >= xs.len() || xs.len() == 0 {
        None
    } else if xs[from].1 == Some(xs[0].0) && xs[from].2 {
        Some(from)
    } else {
        root_elem_from(xs, from + 1)
    }
}

fn same_str(a: &String, b: &str) -> (r: bool)
    ensures
        r == (a@ == b@),
{
    same_chars(&chars_of(a.as_str()), &chars_of(b))
}

/// The first element child `name` of node `pid` (see `child`).
fn child_exec(nodes: &Vec<XmlNode>, pid: u32, name: &str) -> (r: Option<usize>)
    ensures
        match r {
            Some(k) => child(nodes_view(nodes@), pid as int, name@) == Some(k as int) && k < nodes@.len(),
            None => child(nodes_view(nodes@), pid as int, name@) is None,
        },
{
    let ghost xs = nodes_view(nodes@);
    let mut k: usize = 0;
    while k < nodes.len()
        invariant
            k <= nodes@.len(),
            xs == nodes_view(nodes@),
            child(xs, pid as int, name@) == child_from(xs, pid as int, name@, k as int),
        decreases nodes@.len() - k,
    {
        let x = &nodes[k];
        assert(xs[k as int] == node_view(nodes@[k as int]));
        if x.parent == Some(pid) && x.element && same_str(&x.tag, name) {
            return Some(k);
        }
        k = k + 1;
    }
    None
}

/// The element children `name` of node `pid`, in order (see `kids`).
fn kids_exec(nodes: &Vec<XmlNode>, pid: u32, name: &str) -> (r: Vec<usize>)
    ensures
        r@.len() == kids(nodes_view(nodes@), pid as int, name@, nodes@.len() as int).len(),
        forall|i: int|
            0 <= i < r@.len() ==> #[trigger] r@[i] as int == kids(nodes_view(nodes@), pid as int, name@, nodes@.len() as int)[i],
        forall|i: int| 0 <= i < r@.len() ==> #[trigger] r@[i] < nodes@.len(),
{
    let ghost xs = nodes_view(nodes@);
    let mut out: Vec<usize> = Vec::new();
    let mut k: usize = 0;
    while k < nodes.len()
        invariant
            k <= nodes@.len(),
            xs == nodes_view(nodes@),
            out@.len() == kids(xs, pid as int, name@, k as int).len(),
            forall|i: int| 0 <= i < out@.len() ==> #[trigger] out@[i] as int == kids(xs, pid as int, name@, k as int)[i],
            forall|i: int| 0 <= i < out@.len() ==> #[trigger] out@[i] < k,
        decreases nodes@.len() - k,
    {
        let x = &nodes[k];
        assert(xs[k as int] == node_view(nodes@[k as int]));
        if x.parent == Some(pid) && x.element && same_str(&x.tag, name) {
            out.push(k);
        }
        k = k + 1;
    }
    out
}

/// Value of attribute `name` of a node (see `attr`).
fn attr_exec(x: &XmlNode, name: &str) -> (r: Option<Vec<char>>)
    ensures
        match r {
            Some(v) => attr(node_view(*x), name@) == Some(v@),
            None => attr(node_view(*x), name@) is None,
        },
{
    let ghost a = attrs_view(x.attrs@);
    let mut k: usize = 0;
    while k < x.attrs.len()
        invariant
            k <= x.attrs@.len(),
            a == attrs_view(x.attrs@),
            attr_from(a, name@, 0) == attr_from(a, name@, k as int),
        decreases x.attrs@.len() - k,
    {
        if same_str(&x.attrs[k].0, name) {
            return Some(chars_of(x.attrs[k].1.as_str()));
        }
        k = k + 1;
    }
    None
}

/// The trimmed text of the first child `name` of node `pid` (see `child_text`).
fn child_text_exec(nodes: &Vec<XmlNode>, pid: u32, name: &str) -> (r: Vec<char>)
    ensures
        r@ == child_text(nodes_view(nodes@), pid as int, name@),
{
    proof {
        reveal_strlit("");
    }
    match child_exec(nodes, pid, name) {
        Some(k) => {
            assert(nodes_view(nodes@)[k as int] == node_view(nodes@[k as int]));
            match &nodes[k].text {
                Some(t) => {
                    let v = chars_of(t.as_str());
                    let (a, b) = trim_range(&v, 0, v.len());
                    assert(v@.subrange(0, v@.len() as int) =~= v@);
                    sub_vec(&v, a, b)
                },
                None => Vec::new(),
            }
        },
        None => Vec::new(),
    }
}

// ---------------------------------------------------------------- the tournament

/// `str::parse::<i64>`: an optional sign, then digits, within the range of `i64`.
pub open spec fn parse_i64(s: Seq<char>) -> Option<int> {
    let neg = s.len() > 0 && s[0] == '-';
    let body = if s.len() > 0 && (s[0] == '-' || s[0] == '+') { s.drop_first() } else { s };
    let v = if neg { -digits_value(body) } else { digits_value(body) };
    if body.len() > 0 && all_digits(body) && i64::MIN <= v <= i64::MAX {
        Some(v)
    } else {
        None
    }
}

/// The numbers among the first `k` pieces.
pub open spec fn parsed_pieces(ps: Seq<Seq<char>>, k: int) -> Seq<int>
    decreases k,
{
    if k <= 0 {
        Seq::empty()
    } else {
        match parse_i64(ps[k - 1]) {
            Some(v) => parsed_pieces(ps, k - 1).push(v),
            None => parsed_pieces(ps, k - 1),
        }
    }
}

/// The numbers of a duration "h:m:s".
pub open spec fn duration_parts(d: Seq<char>) -> Seq<int> {
    let ps = split_on(d, ':');
    parsed_pieces(ps, ps.len() as int)
}

/// Seconds of a duration "h:m:s": three numbers read, else nothing.
pub open spec fn duration_secs(d: Seq<char>) -> int {
    let p = duration_parts(d);
    if p.len() == 3 { p[0] * 3600 + p[1] * 60 + p[2] } else { 0 }
}

pub open spec fn in_i64(x: int) -> bool {
    i64::MIN <= x <= i64::MAX
}

/// The seconds of a duration can be computed with `i64` arithmetic.
pub open spec fn duration_fits(d: Seq<char>) -> bool {
    let p = duration_parts(d);
    p.len() != 3 || (in_i64(p[0] * 3600) && in_i64(p[1] * 60) && in_i64(p[0] * 3600 + p[1] * 60) && in_i64(
        p[0] * 3600 + p[1] * 60 + p[2],
    ))
}

/// Why an iPoker file is refused.
#[derive(Debug, Clone, Copy, PartialEq, Eq, Structural)]
pub enum IpkRefusal {
    /// the text is not well-formed XML
    NotXml,
    /// no `<general>` element under the root
    NoGeneral,
    /// no tournament code: a cash game
    NotTournament,
}

/// What the tournament's `<general>` element says.
pub struct IpkHead {
    /// index of the root element
    pub root: int,
    /// index of the `<general>` element
    pub general: int,
    pub hero: Seq<char>,
    pub tcode: Seq<char>,
    /// the tournament's name, else the table's
    pub name: Seq<char>,
    /// the table size (3 when unreadable)
    pub table_size: u8,
    pub currency: Seq<char>,
    /// the buy-in's parts "0€ + 0,35€ + 4,65€"
    pub buyin: Seq<Seq<char>>,
    pub total: Seq<char>,
    pub prize: Seq<char>,
    /// the place (0 when unreadable)
    pub place: u8,
    pub win: Seq<char>,
    /// the start (0 when unreadable)
    pub start: int,
    /// seconds played
    pub duration: int,
}

pub open spec fn spec_ipk_head(xs: Seq<XmlView>) -> Result<IpkHead, IpkRefusal> {
    match root_elem_from(xs, 0) {
        None => Err(IpkRefusal::NoGeneral),
        Some(root) => match child(xs, xs[root].0, "general"@) {
            None => Err(IpkRefusal::NoGeneral),
            Some(g) => {
                let gid = xs[g].0;
                let tcode = child_text(xs, gid, "tournamentcode"@);
                if tcode.len() == 0 {
                    Err(IpkRefusal::NotTournament)
                } else {
                    let tn = child_text(xs, gid, "tournamentname"@);
                    Ok(
                        IpkHead {
                            root,
                            general: g,
                            hero: child_text(xs, gid, "nickname"@),
                            tcode,
                            name: if tn.len() == 0 { child_text(xs, gid, "tablename"@) } else { tn },
                            table_size: match parse_u8(child_text(xs, gid, "tablesize"@)) {
                                Some(x) => x,
                                None => 3,
                            },
                            currency: child_text(xs, gid, "tournamentcurrency"@),
                            buyin: split_on(child_text(xs, gid, "buyin"@), '+'),
                            total: child_text(xs, gid, "totalbuyin"@),
                            prize: child_text(xs, gid, "rewarddrawn"@),
                            place: match parse_u8(child_text(xs, gid, "place"@)) {
                                Some(x) => x,
                                None => 0,
                            },
                            win: child_text(xs, gid, "win"@),
                            start: match spec_parse_date(child_text(xs, gid, "startdate"@)) {
                                Some(t) => t,
                                None => 0,
                            },
                            duration: duration_secs(child_text(xs, gid, "duration"@)),
                        },
                    )
                }
            },
        },
    }
}

/// `str::parse::<i64>` (see `parse_i64`).
fn parse_i64_exec(v: &Vec<char>) -> (r: Option<i64>)
    ensures
        match r {
            Some(x) => parse_i64(v@) == Some(x as int),
            None => parse_i64(v@) is None,
        },
{
    let n = v.len();
    if n == 0 {
        return None;
    }
    let neg = v[0] == '-';
    let start: usize = if v[0] == '-' || v[0] == '+' { 1 } else { 0 };
    let ghost body = if v@[0] == '-' || v@[0] == '+' { v@.drop_first() } else { v@ };
    assert(body =~= v@.subrange(start as int, n as int));
    if start >= n {
        return None;
    }
    let mut acc: u64 = 0;
    let mut i = start;
    while i < n
        invariant
            start <= i <= n == v@.len(),
            start < n,
            body =~= v@.subrange(start as int, n as int),
            body == (if v@[0] == '-' || v@[0] == '+' { v@.drop_first() } else { v@ }),
            all_digits(v@.subrange(start as int, i as int)),
            acc == digits_value(v@.subrange(start as int, i as int)),
            acc <= 9223372036854775808u64,
        decreases n - i,
    {
        let c = v[i];
        if c < '0' || c > '9' {
            assert(body[i - start] == c);
            assert(!all_digits(body));
            return None;
        }
        let d = ((c as u32) - ('0' as u32)) as u64;
        assert(v@.subrange(start as int, i + 1).drop_last() =~= v@.subrange(start as int, i as int));
        if acc > (9223372036854775808u64 - d) / 10 {
            proof {
                assert(body.subrange(0, i + 1 - start) =~= v@.subrange(start as int, i + 1));
                assert(all_digits(v@.subrange(start as int, i + 1)));
                crate::parser::expresso::lemma_digits_grow(body, i + 1 - start);
                assert(digits_value(v@.subrange(start as int, i + 1)) > 9223372036854775808u64) by (nonlinear_arith)
                    requires
                        digits_value(v@.subrange(start as int, i + 1)) == acc * 10 + d,
                        acc > (9223372036854775808u64 - d) / 10,
                        d <= 9,
                ;
            }
            return None;
        }
        acc = acc * 10 + d;
        assert(all_digits(v@.subrange(start as int, i + 1)));
        i = i + 1;
    }
    assert(v@.subrange(start as int, i as int) =~= body);
    if neg {
        if acc == 9223372036854775808u64 {
            Some(-9223372036854775807i64 - 1)
        } else {
            Some(-(acc as i64))
        }
    } else if acc > 9223372036854775807u64 {
        None
    } else {
        Some(acc as i64)
    }
}

/// Seconds of a duration "h:m:s" (see `duration_secs`).
fn duration_exec(d: &Vec<char>) -> (r: i64)
    requires
        duration_fits(d@),
    ensures
        r as int == duration_secs(d@),
{
    let ps = crate::parser::expresso::split_chars(d, ':');
    let ghost pv = views(ps@);
    let mut nums: Vec<i64> = Vec::new();
    let mut k: usize = 0;
    while k < ps.len()
        invariant
            k <= ps@.len() == pv.len(),
            pv == views(ps@),
            pv == split_on(d@, ':'),
            nums@.len() == parsed_pieces(pv, k as int).len(),
            forall|i: int| 0 <= i < nums@.len() ==> #[trigger] nums@[i] as int == parsed_pieces(pv, k as int)[i],
        decreases ps@.len() - k,
    {
        assert(pv[k as int] == ps@[k as int]@);
        match parse_i64_exec(&ps[k]) {
            Some(x) => {
                nums.push(x);
            },
            None => {},
        }
        k = k + 1;
    }
    if nums.len() == 3 {
        let a = nums[0];
        let b = nums[1];
        let c = nums[2];
        a * 3600 + b * 60 + c
    } else {
        0
    }
}

/// The tournament's `<general>` element, read (see `IpkHead`).
pub struct IpkHeadRead {
    pub root: usize,
    pub general: usize,
    pub hero: String,
    pub tcode: String,
    pub name: String,
    pub table_size: u8,
    pub currency: String,
    pub buyin: Vec<Decimal>,
    pub total: Decimal,
    pub prize: Decimal,
    pub place: u8,
    pub win: Decimal,
    pub start: i64,
    pub duration: i64,
}

pub open spec fn head_reads(h: IpkHeadRead, t: IpkHead) -> bool {
    &&& h.root as int == t.root
    &&& h.general as int == t.general
    &&& h.hero@ == t.hero
    &&& h.tcode@ == t.tcode
    &&& h.name@ == t.name
    &&& h.table_size == t.table_size
    &&& h.currency@ == t.currency
    &&& decs_are(h.buyin@, t.buyin)
    &&& dec_is(h.total, t.total)
    &&& dec_is(h.prize, t.prize)
    &&& h.place == t.place
    &&& dec_is(h.win, t.win)
    &&& h.start == t.start
    &&& h.duration == t.duration
}

/// The general element of the tournament's document `xs` can be read with `i64`
/// arithmetic: a start date that `parse_date` can compute and a duration that fits.
pub open spec fn head_fits(xs: Seq<XmlView>) -> bool {
    match spec_ipk_head(xs) {
        Ok(h) => {
            let gid = xs[h.general].0;
            date_fits(child_text(xs, gid, "startdate"@)) && duration_fits(child_text(xs, gid, "duration"@))
        },
        Err(_) => true,
    }
}

fn vec_string(v: &Vec<char>) -> (r: String)
    ensures
        r@ == v@,
{
    assert(v@.subrange(0, v@.len() as int) =~= v@);
    string_of(v, 0, v.len())
}

/// Finds the root element and its `<general>` element, and checks the tournament code
/// (see `spec_ipk_head`).
fn locate_general(nodes: &Vec<XmlNode>) -> (r: Result<(usize, usize), IpkRefusal>)
    ensures
        match r {
            Ok((root, g)) => spec_ipk_head(nodes_view(nodes@)) matches Ok(t) && t.root == root && t.general == g
                && root < nodes@.len() && g < nodes@.len(),
            Err(e) => spec_ipk_head(nodes_view(nodes@)) == Err::<IpkHead, IpkRefusal>(e),
        },
{
    let ghost xs = nodes_view(nodes@);
    if nodes.len() == 0 {
        return Err(IpkRefusal::NoGeneral);
    }
    let root_id = nodes[0].id;
    assert(xs[0] == node_view(nodes@[0]));
    let mut k: usize = 0;
    while k < nodes.len() && !(nodes[k].parent == Some(root_id) && nodes[k].element)
        invariant
            k <= nodes@.len(),
            nodes@.len() > 0,
            root_id as int == xs[0].0,
            xs == nodes_view(nodes@),
            root_elem_from(xs, 0) == root_elem_from(xs, k as int),
        decreases nodes@.len() - k,
    {
        assert(xs[k as int] == node_view(nodes@[k as int]));
        k = k + 1;
    }
    if k >= nodes.len() {
        return Err(IpkRefusal::NoGeneral);
    }
    assert(xs[k as int] == node_view(nodes@[k as int]));
    let root = k;
    let rid = nodes[root].id;
    let g = match child_exec(nodes, rid, "general") {
        Some(g) => g,
        None => return Err(IpkRefusal::NoGeneral),
    };
    assert(xs[g as int] == node_view(nodes@[g as int]));
    let gid = nodes[g].id;
    let tcode = child_text_exec(nodes, gid, "tournamentcode");
    if tcode.len() == 0 {
        return Err(IpkRefusal::NotTournament);
    }
    Ok((root, g))
}

/// Reads the tournament's `<general>` element (see `spec_ipk_head`).
#[verifier::rlimit(40)]
fn read_head(nodes: &Vec<XmlNode>) -> (r: Result<IpkHeadRead, IpkRefusal>)
    requires
        head_fits(nodes_view(nodes@)),
    ensures
        match r {
            Ok(h) => spec_ipk_head(nodes_view(nodes@)) matches Ok(t) && head_reads(h, t) && h.root < nodes@.len(),
            Err(e) => spec_ipk_head(nodes_view(nodes@)) == Err::<IpkHead, IpkRefusal>(e),
        },
{
    let ghost xs = nodes_view(nodes@);
    let (root, g) = match locate_general(nodes) {
        Ok(p) => p,
        Err(e) => return Err(e),
    };
    assert(xs[g as int] == node_view(nodes@[g as int]));
    let gid = nodes[g].id;
    let tcode = child_text_exec(nodes, gid, "tournamentcode");
    let tn = child_text_exec(nodes, gid, "tournamentname");
    let name = if tn.len() == 0 { child_text_exec(nodes, gid, "tablename") } else { tn };
    let buy = child_text_exec(nodes, gid, "buyin");
    let h = IpkHeadRead {
        root,
        general: g,
        hero: vec_string(&child_text_exec(nodes, gid, "nickname")),
        tcode: vec_string(&tcode),
        name: vec_string(&name),
        table_size: match crate::parser::expresso::parse_u8_exec(&child_text_exec(nodes, gid, "tablesize")) {
            Some(x) => x,
            None => 3,
        },
        currency: vec_string(&child_text_exec(nodes, gid, "tournamentcurrency")),
        buyin: crate::parser::expresso::split_nums(&buy, '+'),
        total: crate::parser::expresso::read_num(&child_text_exec(nodes, gid, "totalbuyin")),
        prize: crate::parser::expresso::read_num(&child_text_exec(nodes, gid, "rewarddrawn")),
        place: match crate::parser::expresso::parse_u8_exec(&child_text_exec(nodes, gid, "place")) {
            Some(x) => x,
            None => 0,
        },
        win: crate::parser::expresso::read_num(&child_text_exec(nodes, gid, "win")),
        start: match crate::parser::parse_date(vec_string(&child_text_exec(nodes, gid, "startdate")).as_str()) {
            Some(t) => t,
            None => 0,
        },
        duration: duration_exec(&child_text_exec(nodes, gid, "duration")),
    };
    Ok(h)
}

// ---------------------------------------------------------------- stable sort by a key

/// `s` with `p` put after the last entry whose key is at most `p`'s: one step of a stable
/// sort by key.
pub open spec fn ins_by(s: Seq<(int, int)>, p: (int, int)) -> Seq<(int, int)>
    decreases s.len(),
{
    if s.len() == 0 || s.last().0 <= p.0 {
        s.push(p)
    } else {
        ins_by(s.drop_last(), p).push(s.last())
    }
}

/// The first `k` entries sorted by key, entries of equal keys in their order
/// (`sort_by_key`).
pub open spec fn sorted_by_key(ps: Seq<(int, int)>, k: int) -> Seq<(int, int)>
    decreases k,
{
    if k <= 0 {
        Seq::empty()
    } else {
        ins_by(sorted_by_key(ps, k - 1), ps[k - 1])
    }
}

proof fn lemma_ins_by(s: Seq<(int, int)>, p: (int, int), j: int)
    requires
        0 <= j <= s.len(),
        forall|i: int| j <= i < s.len() ==> #[trigger] s[i].0 > p.0,
        j == 0 || s[j - 1].0 <= p.0,
    ensures
        ins_by(s, p) == s.insert(j, p),
    decreases s.len() - j,
{
    if j < s.len() {
        lemma_ins_by(s.drop_last(), p, j);
        assert(s.drop_last().insert(j, p).push(s.last()) =~= s.insert(j, p));
    } else {
        assert(s.push(p) =~= s.insert(j, p));
    }
}

pub open spec fn pairs_view(v: Seq<(u32, usize)>) -> Seq<(int, int)> {
    Seq::new(v.len(), |i: int| (v[i].0 as int, v[i].1 as int))
}

/// Sorts entries (key, index) by key, keeping the order of equal keys (see
/// `sorted_by_key`).
fn sort_by_key_exec(ps: &Vec<(u32, usize)>) -> (r: Vec<(u32, usize)>)
    ensures
        pairs_view(r@) == sorted_by_key(pairs_view(ps@), ps@.len() as int),
        r@.len() == ps@.len(),
        forall|i: int| 0 <= i < r@.len() ==> exists|j: int| 0 <= j < ps@.len() && #[trigger] r@[i] == ps@[j],
{
    let ghost pv = pairs_view(ps@);
    let mut out: Vec<(u32, usize)> = Vec::new();
    let mut k: usize = 0;
    while k < ps.len()
        invariant
            k <= ps@.len(),
            pv == pairs_view(ps@),
            pairs_view(out@) == sorted_by_key(pv, k as int),
            out@.len() == k,
            forall|i: int| 0 <= i < out@.len() ==> exists|j: int| 0 <= j < ps@.len() && #[trigger] out@[i] == ps@[j],
        decreases ps@.len() - k,
    {
        let p = ps[k];
        let mut j = out.len();
        while j > 0 && out[j - 1].0 > p.0
            invariant
                j <= out@.len(),
                forall|i: int| j <= i < out@.len() ==> #[trigger] out@[i].0 > p.0,
            decreases j,
        {
            j = j - 1;
        }
        let ghost before = out@;
        proof {
            assert forall|i: int| j <= i < pairs_view(before).len() implies #[trigger] pairs_view(before)[i].0 > (
            p.0 as int) by {
                assert(before[i].0 > p.0);
            }
            if j > 0 {
                assert(pairs_view(before)[j - 1].0 == before[j - 1].0);
            }
            lemma_ins_by(pairs_view(before), (p.0 as int, p.1 as int), j as int);
        }
        out.insert(j, p);
        proof {
            assert(pairs_view(out@) =~= pairs_view(before).insert(j as int, (p.0 as int, p.1 as int)));
            assert(pv[k as int] == (p.0 as int, p.1 as int));
            assert forall|i: int| 0 <= i < out@.len() implies exists|jj: int| 0 <= jj < ps@.len() && #[trigger] out@[i]
                == ps@[jj] by {
                if i < j {
                    assert(out@[i] == before[i]);
                } else if i == j {
                    assert(out@[i] == ps@[k as int]);
                } else {
                    assert(out@[i] == before[i - 1]);
                }
            }
        }
        k = k + 1;
    }
    out
}

/// `str::parse::<u32>`: an optional '+', then digits, at most `u32::MAX`.
pub open spec fn parse_u32(s: Seq<char>) -> Option<u32> {
    let body = if s.len() > 0 && s[0] == '+' { s.drop_first() } else { s };
    if body.len() > 0 && all_digits(body) && digits_value(body) <= u32::MAX {
        Some(digits_value(body) as u32)
    } else {
        None
    }
}

fn parse_u32_exec(v: &Vec<char>) -> (r: Option<u32>)
    ensures
        r == parse_u32(v@),
{
    let start: usize = if v.len() > 0 && v[0] == '+' { 1 } else { 0 };
    let ghost body = if v@.len() > 0 && v@[0] == '+' { v@.drop_first() } else { v@ };
    assert(body =~= v@.subrange(start as int, v@.len() as int));
    if start >= v.len() {
        return None;
    }
    let mut val: u64 = 0;
    let mut i = start;
    while i < v.len()
        invariant
            start <= i <= v@.len(),
            start < v@.len(),
            body =~= v@.subrange(start as int, v@.len() as int),
            body == (if v@.len() > 0 && v@[0] == '+' { v@.drop_first() } else { v@ }),
            all_digits(v@.subrange(start as int, i as int)),
            val == digits_value(v@.subrange(start as int, i as int)),
            val <= 4294967295u64,
        decreases v@.len() - i,
    {
        let c = v[i];
        if c < '0' || c > '9' {
            assert(body[i - start] == c);
            assert(!all_digits(body));
            return None;
        }
        let d = ((c as u32) - ('0' as u32)) as u64;
        assert(v@.subrange(start as int, i + 1).drop_last() =~= v@.subrange(start as int, i as int));
        if val * 10 + d > 4294967295u64 {
            proof {
                assert(body.subrange(0, i + 1 - start) =~= v@.subrange(start as int, i + 1));
                assert(all_digits(v@.subrange(start as int, i + 1)));
                crate::parser::expresso::lemma_digits_grow(body, i + 1 - start);
            }
            return None;
        }
        val = val * 10 + d;
        assert(all_digits(v@.subrange(start as int, i + 1)));
        i = i + 1;
    }
    assert(v@.subrange(start as int, i as int) =~= body);
    Some(val as u32)
}

// ---------------------------------------------------------------- the hands

/// A player of a hand: name, seat, dealer, hero, chips, bet, win (amounts as written).
pub type PlayerText = (Seq<char>, u8, bool, bool, Seq<char>, Seq<char>, Seq<char>);

/// The seat number of a `<player>` element (0 when unreadable).
pub open spec fn seat_num(x: XmlView) -> u8 {
    match attr(x, "seat"@) {
        Some(s) => match parse_u8(s) {
            Some(v) => v,
            None => 0,
        },
        None => 0,
    }
}

/// A `<player>` element; the hero has a registration code or the hero's name.
pub open spec fn player_of(x: XmlView, hero: Seq<char>) -> PlayerText {
    let name = or_text(attr(x, "name"@), Seq::empty());
    (
        name,
        seat_num(x),
        attr(x, "dealer"@) == Some("1"@),
        (match attr(x, "reg_code"@) {
            Some(r) => r.len() > 0,
            None => false,
        }) || name == hero,
        or_text(attr(x, "chips"@), "0"@),
        or_text(attr(x, "bet"@), "0"@),
        or_text(attr(x, "win"@), "0"@),
    )
}

/// The key of an element by its number attribute `no` (0 when unreadable).
pub open spec fn no_of(x: XmlView) -> int {
    match attr(x, "no"@) {
        Some(s) => match parse_u32(s) {
            Some(v) => v as int,
            None => 0,
        },
        None => 0,
    }
}

/// The elements at these indices, keyed by seat.
pub open spec fn seat_keys(xs: Seq<XmlView>, ix: Seq<int>, hero: Seq<char>) -> Seq<(int, int)> {
    Seq::new(ix.len(), |i: int| (seat_num(xs[ix[i]]) as int, ix[i]))
}

/// The elements at these indices, keyed by their `no`.
pub open spec fn no_keys(xs: Seq<XmlView>, ix: Seq<int>) -> Seq<(int, int)> {
    Seq::new(ix.len(), |i: int| (no_of(xs[ix[i]]), ix[i]))
}

/// The payloads of sorted entries.
pub open spec fn payloads(s: Seq<(int, int)>) -> Seq<int> {
    Seq::new(s.len(), |i: int| s[i].1)
}

/// Index of the last dealer among the first `k` players (0 without one).
pub open spec fn last_dealer(ps: Seq<PlayerText>, k: int) -> int
    decreases k,
{
    if k <= 0 {
        0
    } else if ps[k - 1].2 {
        k - 1
    } else {
        last_dealer(ps, k - 1)
    }
}

/// Index of the first hero from the `i`-th player on.
pub open spec fn first_hero(ps: Seq<PlayerText>, i: int) -> Option<int>
    decreases ps.len() - i,
{
    if i < 0 || i >= ps.len() {
        None
    } else if ps[i].3 {
        Some(i)
    } else {
        first_hero(ps, i + 1)
    }
}

/// Index of the first player with this name from the `i`-th on.
pub open spec fn player_named(ps: Seq<PlayerText>, n: Seq<char>, i: int) -> Option<int>
    decreases ps.len() - i,
{
    if i < 0 || i >= ps.len() {
        None
    } else if ps[i].0 == n {
        Some(i)
    } else {
        player_named(ps, n, i + 1)
    }
}

/// An action as written: street, player, kind (none for an all-in whose kind depends on
/// the amounts: a raise, a bet or a call), amount, number of street changes before it, and
/// whether the amount is the player's street total (a raise "to", type 23) rather than the
/// chips added (every other type).
pub type IpkActText = (u8, u8, Option<ActKind>, Seq<char>, int, bool);

/// The hand's board, hole cards, actions, last street and street changes while its rounds
/// are read, and whether a card text could not be read.
pub struct GState {
    pub board: Seq<u8>,
    pub hole: Seq<Option<(u8, u8)>>,
    pub acts: Seq<IpkActText>,
    pub last_street: u8,
    pub part: int,
    pub bad_cards: bool,
}

/// A `<cards>` element: hole cards of a player ("Pocket"), or board cards.
pub open spec fn card_step(st: GState, c: XmlView, seats: Seq<PlayerText>) -> GState {
    let text = or_text(c.5, Seq::empty());
    let cards = words_cards(text, 0);
    let kind = or_text(attr(c, "type"@), Seq::empty());
    let st1 = if words_ascii_led(text) { st } else { GState { bad_cards: true, ..st } };
    if kind == "Pocket"@ {
        match attr(c, "player"@) {
            Some(pn) => match player_named(seats, pn, 0) {
                Some(pi) => if cards.len() == 2 {
                    GState { hole: st1.hole.update((pi as u8) as int, Some((cards[0], cards[1]))), ..st1 }
                } else {
                    st1
                },
                None => st1,
            },
            None => st1,
        }
    } else if kind == "Flop"@ || kind == "Turn"@ || kind == "River"@ {
        GState { board: st1.board + cards, ..st1 }
    } else {
        st1
    }
}

pub open spec fn cards_upto(st: GState, xs: Seq<XmlView>, ck: Seq<int>, seats: Seq<PlayerText>, k: int) -> GState
    decreases k,
{
    if k <= 0 {
        st
    } else {
        card_step(cards_upto(st, xs, ck, seats, k - 1), xs[ck[k - 1]], seats)
    }
}

/// Kind, amount and "street total" flag of an action type: 0 fold, 1 small blind, 2 big
/// blind, 3 call, 4 check, 5 bet, 6 raise (chips added), 23 raise to a street total, 7
/// all-in, 15 ante; other types are not actions. Only type 23's amount is a street total;
/// every other amount is the chips added to the pot.
pub open spec fn act_kind(t: int, sum: Seq<char>) -> Option<(Option<ActKind>, Seq<char>, bool)> {
    if t == 0 {
        Some((Some(ActKind::Fold), Seq::empty(), false))
    } else if t == 1 {
        Some((Some(ActKind::SmallBlind), sum, false))
    } else if t == 2 {
        Some((Some(ActKind::BigBlind), sum, false))
    } else if t == 3 {
        Some((Some(ActKind::Call), sum, false))
    } else if t == 4 {
        Some((Some(ActKind::Check), Seq::empty(), false))
    } else if t == 5 {
        Some((Some(ActKind::Bet), sum, false))
    } else if t == 6 {
        Some((Some(ActKind::Raise), sum, false))
    } else if t == 23 {
        Some((Some(ActKind::Raise), sum, true))
    } else if t == 7 {
        Some((None, sum, false))
    } else if t == 15 {
        Some((Some(ActKind::Ante), sum, false))
    } else {
        None
    }
}

/// An `<action>` element of a player of the hand.
pub open spec fn act_step(st: GState, a: XmlView, seats: Seq<PlayerText>, street: u8) -> GState {
    match attr(a, "player"@) {
        None => st,
        Some(pn) => match player_named(seats, pn, 0) {
            None => st,
            Some(pi) => {
                let sum = or_text(attr(a, "sum"@), "0"@);
                let t = match attr(a, "type"@) {
                    Some(s) => match parse_u32(s) {
                        Some(v) => v as int,
                        None => 0,
                    },
                    None => 0,
                };
                match act_kind(t, sum) {
                    None => st,
                    Some((kind, text, to_total)) => GState {
                        acts: st.acts.push((street, pi as u8, kind, text, st.part, to_total)),
                        ..st
                    },
                }
            },
        },
    }
}

pub open spec fn acts_upto(st: GState, xs: Seq<XmlView>, order: Seq<int>, seats: Seq<PlayerText>, street: u8, k: int) -> GState
    decreases k,
{
    if k <= 0 {
        st
    } else {
        act_step(acts_upto(st, xs, order, seats, street, k - 1), xs[order[k - 1]], seats, street)
    }
}

/// Street of a round number: 0 and 1 preflop, 2 flop, 3 turn, then river.
pub open spec fn street_of(no: int) -> u8 {
    if no <= 1 { 0 } else if no == 2 { 1 } else if no == 3 { 2 } else { 3 }
}

/// A `<round>` element: a new street counts one more street change; its cards, then its
/// actions in the order of their numbers.
pub open spec fn round_step(st: GState, xs: Seq<XmlView>, r: int, seats: Seq<PlayerText>) -> GState {
    let street = street_of(no_of(xs[r]));
    let st1 = if street != st.last_street { GState { part: st.part + 1, last_street: street, ..st } } else { st };
    let rid = xs[r].0;
    let ck = kids(xs, rid, "cards"@, xs.len() as int);
    let st2 = cards_upto(st1, xs, ck, seats, ck.len() as int);
    let ak = kids(xs, rid, "action"@, xs.len() as int);
    let order = payloads(sorted_by_key(no_keys(xs, ak), ak.len() as int));
    acts_upto(st2, xs, order, seats, street, order.len() as int)
}

pub open spec fn rounds_upto(st: GState, xs: Seq<XmlView>, order: Seq<int>, seats: Seq<PlayerText>, k: int) -> GState
    decreases k,
{
    if k <= 0 {
        st
    } else {
        round_step(rounds_upto(st, xs, order, seats, k - 1), xs, order[k - 1], seats)
    }
}

/// What a `<game>` element says.
pub struct GameText {
    pub gamecode: Seq<char>,
    pub ts: int,
    pub sb: Seq<char>,
    pub bb: Seq<char>,
    pub ante: Seq<char>,
    /// the players in the order of their seats
    pub seats: Seq<PlayerText>,
    /// the last dealer's index (0 without one), cut to a byte
    pub button: u8,
    /// the first hero's index, cut to a byte
    pub hero: u8,
    pub play: GState,
}

/// The players of a game, in the order of their seats.
pub open spec fn game_seats(xs: Seq<XmlView>, pn: int, hero: Seq<char>) -> Seq<PlayerText> {
    let pl = kids(xs, xs[pn].0, "player"@, xs.len() as int);
    let order = payloads(sorted_by_key(seat_keys(xs, pl, hero), pl.len() as int));
    Seq::new(order.len(), |j: int| player_of(xs[order[j]], hero))
}

/// A `<game>` element: kept when it has a `<general>` element with `<players>`, and the
/// hero among them; its start defaults to the tournament's.
pub open spec fn spec_game(xs: Seq<XmlView>, g: int, head: IpkHead) -> Option<GameText> {
    let gid = xs[g].0;
    match child(xs, gid, "general"@) {
        None => None,
        Some(gg) => {
            let ggid = xs[gg].0;
            match child(xs, ggid, "players"@) {
                None => None,
                Some(pn) => {
                    let seats = game_seats(xs, pn, head.hero);
                    match first_hero(seats, 0) {
                        None => None,
                        Some(hero) => {
                            let rk = kids(xs, gid, "round"@, xs.len() as int);
                            let rorder = payloads(sorted_by_key(no_keys(xs, rk), rk.len() as int));
                            let st0 = GState {
                                board: Seq::empty(),
                                hole: Seq::new(seats.len(), |i: int| None),
                                acts: Seq::empty(),
                                last_street: 0,
                                part: 0,
                                bad_cards: false,
                            };
                            Some(
                                GameText {
                                    gamecode: or_text(attr(xs[g], "gamecode"@), Seq::empty()),
                                    ts: match spec_parse_date(child_text(xs, ggid, "startdate"@)) {
                                        Some(t) => t,
                                        None => head.start,
                                    },
                                    sb: child_text(xs, ggid, "smallblind"@),
                                    bb: child_text(xs, ggid, "bigblind"@),
                                    ante: child_text(xs, ggid, "ante"@),
                                    seats,
                                    button: last_dealer(seats, seats.len() as int) as u8,
                                    hero: hero as u8,
                                    play: rounds_upto(st0, xs, rorder, seats, rorder.len() as int),
                                },
                            )
                        },
                    }
                },
            }
        },
    }
}

// ---------------------------------------------------------------- reading the hands

/// A player of a hand, read.
pub struct IpkSeat {
    pub name: String,
    pub seat: u8,
    pub dealer: bool,
    pub hero: bool,
    pub chips: Decimal,
    pub bet: Decimal,
    pub win: Decimal,
}

pub open spec fn seat_reads(s: IpkSeat, t: PlayerText) -> bool {
    &&& s.name@ == t.0
    &&& s.seat == t.1
    &&& s.dealer == t.2
    &&& s.hero == t.3
    &&& dec_is(s.chips, t.4)
    &&& dec_is(s.bet, t.5)
    &&& dec_is(s.win, t.6)
}

fn attr_or(x: &XmlNode, name: &str, d: &str) -> (r: Vec<char>)
    ensures
        r@ == or_text(attr(node_view(*x), name@), d@),
{
    match attr_exec(x, name) {
        Some(v) => v,
        None => chars_of(d),
    }
}

fn seat_attr(x: &XmlNode) -> (r: u8)
    ensures
        r == seat_num(node_view(*x)),
{
    match attr_exec(x, "seat") {
        Some(v) => match crate::parser::expresso::parse_u8_exec(&v) {
            Some(s) => s,
            None => 0,
        },
        None => 0,
    }
}

fn player_exec(x: &XmlNode, hero: &Vec<char>) -> (r: IpkSeat)
    ensures
        seat_reads(r, player_of(node_view(*x), hero@)),
{
    proof {
        reveal_strlit("");
        reveal_strlit("0");
        reveal_strlit("1");
    }
    let name = attr_or(x, "name", "");
    let dealer = match attr_exec(x, "dealer") {
        Some(v) => same_chars(&v, &chars_of("1")),
        None => false,
    };
    let reg = match attr_exec(x, "reg_code") {
        Some(v) => v.len() > 0,
        None => false,
    };
    let is_hero = reg || same_chars(&name, hero);
    let ghost t = player_of(node_view(*x), hero@);
    assert(name@ == t.0);
    assert(dealer == t.2);
    assert(is_hero == t.3);
    IpkSeat {
        name: vec_string(&name),
        seat: seat_attr(x),
        dealer,
        hero: is_hero,
        chips: crate::parser::expresso::read_num(&attr_or(x, "chips", "0")),
        bet: crate::parser::expresso::read_num(&attr_or(x, "bet", "0")),
        win: crate::parser::expresso::read_num(&attr_or(x, "win", "0")),
    }
}

pub open spec fn ix_view(v: Seq<usize>) -> Seq<int> {
    Seq::new(v.len(), |i: int| v[i] as int)
}

/// The players of a game in the order of their seats, with their names (see
/// `game_seats`).
fn seats_exec(nodes: &Vec<XmlNode>, pn: usize, hero: &Vec<char>) -> (r: (Vec<IpkSeat>, Vec<Vec<char>>))
    requires
        pn < nodes@.len(),
    ensures
        r.0@.len() == game_seats(nodes_view(nodes@), pn as int, hero@).len(),
        r.1@.len() == r.0@.len(),
        forall|i: int| 0 <= i < r.0@.len() ==> seat_reads(#[trigger] r.0@[i], game_seats(nodes_view(nodes@), pn as int, hero@)[i]),
        forall|i: int| 0 <= i < r.1@.len() ==> (#[trigger] r.1@[i])@ == game_seats(nodes_view(nodes@), pn as int, hero@)[i].0,
{
    let ghost xs = nodes_view(nodes@);
    assert(xs[pn as int] == node_view(nodes@[pn as int]));
    let pl = kids_exec(nodes, nodes[pn].id, "player");
    let ghost plv = kids(xs, xs[pn as int].0, "player"@, xs.len() as int);
    assert(ix_view(pl@) =~= plv);
    let mut keys: Vec<(u32, usize)> = Vec::new();
    let mut i: usize = 0;
    while i < pl.len()
        invariant
            i <= pl@.len(),
            xs == nodes_view(nodes@),
            ix_view(pl@) == plv,
            forall|q: int| 0 <= q < pl@.len() ==> #[trigger] pl@[q] < nodes@.len(),
            pairs_view(keys@) == seat_keys(xs, plv, hero@).take(i as int),
            forall|q: int| 0 <= q < keys@.len() ==> #[trigger] keys@[q].1 < nodes@.len(),
        decreases pl@.len() - i,
    {
        let k = pl[i];
        assert(xs[k as int] == node_view(nodes@[k as int]));
        let seat = seat_attr(&nodes[k]);
        let ghost kb = keys@;
        keys.push((seat as u32, k));
        assert(ix_view(pl@)[i as int] == k as int);
        assert(plv[i as int] == k as int);
        assert(seat_keys(xs, plv, hero@)[i as int] == (seat as int, k as int));
        assert(pairs_view(keys@) =~= pairs_view(kb).push((seat as int, k as int)));
        assert(seat_keys(xs, plv, hero@).take(i + 1) =~= seat_keys(xs, plv, hero@).take(i as int).push((seat as int, k as int)));
        i = i + 1;
    }
    assert(seat_keys(xs, plv, hero@).take(pl@.len() as int) =~= seat_keys(xs, plv, hero@));
    let sorted = sort_by_key_exec(&keys);
    let ghost order = payloads(sorted_by_key(seat_keys(xs, plv, hero@), plv.len() as int));
    assert forall|q: int| 0 <= q < sorted@.len() implies #[trigger] sorted@[q].1 < nodes@.len() by {
        let j = choose|j: int| 0 <= j < keys@.len() && sorted@[q] == keys@[j];
        assert(keys@[j].1 < nodes@.len());
    }
    let mut seats: Vec<IpkSeat> = Vec::new();
    let mut names: Vec<Vec<char>> = Vec::new();
    let mut j: usize = 0;
    while j < sorted.len()
        invariant
            j <= sorted@.len(),
            xs == nodes_view(nodes@),
            order.len() == sorted@.len(),
            forall|q: int| 0 <= q < sorted@.len() ==> #[trigger] sorted@[q].1 as int == order[q],
            forall|q: int| 0 <= q < sorted@.len() ==> #[trigger] sorted@[q].1 < nodes@.len(),
            seats@.len() == j,
            names@.len() == j,
            forall|q: int| 0 <= q < j ==> seat_reads(#[trigger] seats@[q], player_of(xs[order[q]], hero@)),
            forall|q: int| 0 <= q < j ==> (#[trigger] names@[q])@ == player_of(xs[order[q]], hero@).0,
        decreases sorted@.len() - j,
    {
        let node = sorted[j].1;
        assert(xs[node as int] == node_view(nodes@[node as int]));
        let st = player_exec(&nodes[node], hero);
        names.push(chars_of(st.name.as_str()));
        seats.push(st);
        j = j + 1;
    }
    proof {
        assert forall|q: int| 0 <= q < sorted@.len() implies #[trigger] sorted@[q].1 as int == order[q] by {
            assert(pairs_view(sorted@)[q] == sorted_by_key(seat_keys(xs, plv, hero@), plv.len() as int)[q]);
        }
    }
    (seats, names)
}

/// An action of a hand, read (see `IpkActText`).
pub struct IpkAct {
    pub street: u8,
    pub p: u8,
    pub kind: Option<ActKind>,
    pub amount: Decimal,
    pub part: usize,
    /// the amount is the player's street total (a raise "to"), not the chips added
    pub to_total: bool,
}

pub open spec fn ipk_act_is(a: IpkAct, t: IpkActText) -> bool {
    a.street == t.0 && a.p == t.1 && a.kind == t.2 && dec_is(a.amount, t.3) && a.part == t.4
        && a.to_total == t.5
}

struct GExec {
    board: Vec<Card>,
    hole: Vec<Option<[Card; 2]>>,
    acts: Vec<IpkAct>,
    last_street: u8,
    part: usize,
    bad_cards: bool,
}

/// The reader holds the state; once a card text cannot be read, only that is kept.
spec fn g_is(e: GExec, s: GState) -> bool {
    &&& e.bad_cards == s.bad_cards
    &&& e.last_street == s.last_street
    &&& e.part == s.part
    &&& e.hole@.len() == s.hole.len()
    &&& !s.bad_cards ==> {
        &&& e.board@ == s.board
        &&& forall|i: int| 0 <= i < s.hole.len() ==> cards_are(#[trigger] e.hole@[i], s.hole[i])
        &&& e.acts@.len() == s.acts.len()
        &&& forall|i: int| 0 <= i < s.acts.len() ==> ipk_act_is(#[trigger] e.acts@[i], s.acts[i])
    }
}

fn ascii_led_exec(v: &Vec<char>) -> (r: bool)
    ensures
        r == words_ascii_led(v@),
{
    let mut i: usize = 0;
    while i < v.len()
        invariant
            i <= v@.len(),
            forall|j: int|
                0 <= j < i && !is_ws(#[trigger] v@[j]) && (j == 0 || is_ws(v@[j - 1])) ==> (v@[j] as u32) < 128,
        decreases v@.len() - i,
    {
        let c = v[i];
        if !is_ws_exec(c) && (i == 0 || is_ws_exec(v[i - 1])) && (c as u32) >= 128 {
            return false;
        }
        i = i + 1;
    }
    true
}

/// The first player with this name (see `player_named`).
fn player_named_exec(names: &Vec<Vec<char>>, n: &Vec<char>, Ghost(seats): Ghost<Seq<PlayerText>>) -> (r: Option<usize>)
    requires
        names@.len() == seats.len(),
        forall|i: int| 0 <= i < seats.len() ==> (#[trigger] names@[i])@ == seats[i].0,
    ensures
        match r {
            Some(k) => player_named(seats, n@, 0) == Some(k as int) && k < seats.len(),
            None => player_named(seats, n@, 0) is None,
        },
{
    let mut k: usize = 0;
    while k < names.len()
        invariant
            k <= names@.len() == seats.len(),
            forall|i: int| 0 <= i < seats.len() ==> (#[trigger] names@[i])@ == seats[i].0,
            player_named(seats, n@, 0) == player_named(seats, n@, k as int),
        decreases names@.len() - k,
    {
        assert(names@[k as int]@ == seats[k as int].0);
        if same_chars(&names[k], n) {
            return Some(k);
        }
        k = k + 1;
    }
    None
}

proof fn lemma_trunc_u8(pi: int)
    requires
        0 <= pi,
    ensures
        0 <= (pi as u8) as int <= pi,
{
    if pi <= 255 {
        assert((pi as u8) as int == pi);
    }
}

proof fn lemma_card_step_len(s: GState, c: XmlView, seats: Seq<PlayerText>)
    requires
        s.hole.len() == seats.len(),
    ensures
        card_step(s, c, seats).hole.len() == s.hole.len(),
{
    match attr(c, "player"@) {
        Some(pn) => match player_named(seats, pn, 0) {
            Some(pi) => {
                lemma_player_named_range(seats, pn, 0);
                lemma_trunc_u8(pi);
            },
            None => {},
        },
        None => {},
    }
}

proof fn lemma_player_named_range(ps: Seq<PlayerText>, n: Seq<char>, i: int)
    ensures
        player_named(ps, n, i) matches Some(k) ==> 0 <= i <= k < ps.len() || (i < 0 && 0 <= k < ps.len()),
    decreases ps.len() - i,
{
    if 0 <= i < ps.len() && ps[i].0 != n {
        lemma_player_named_range(ps, n, i + 1);
    }
}

/// A `<cards>` element (see `card_step`).
#[verifier::rlimit(40)]
fn card_exec(e: &mut GExec, c: &XmlNode, names: &Vec<Vec<char>>, Ghost(s): Ghost<GState>, Ghost(seats): Ghost<Seq<PlayerText>>)
    requires
        g_is(*old(e), s),
        names@.len() == seats.len() == s.hole.len(),
        forall|i: int| 0 <= i < seats.len() ==> (#[trigger] names@[i])@ == seats[i].0,
    ensures
        g_is(*final(e), card_step(s, node_view(*c), seats)),
        card_step(s, node_view(*c), seats).hole.len() == s.hole.len(),
{
    proof {
        reveal_strlit("");
        reveal_strlit("Pocket");
        reveal_strlit("Flop");
        reveal_strlit("Turn");
        reveal_strlit("River");
    }
    proof {
        lemma_card_step_len(s, node_view(*c), seats);
    }
    let text: Vec<char> = match &c.text {
        Some(t) => chars_of(t.as_str()),
        None => Vec::new(),
    };
    if !ascii_led_exec(&text) {
        e.bad_cards = true;
        return;
    }
    let ts = vec_string(&text);
    let cards = crate::parser::ipoker::parse_cards(ts.as_str());
    let kind = attr_or(c, "type", "");
    assert(text@ == or_text(node_view(*c).5, Seq::empty()));
    if same_chars(&kind, &chars_of("Pocket")) {
        match attr_exec(c, "player") {
            Some(pn) => match player_named_exec(names, &pn, Ghost(seats)) {
                Some(pi) => {
                    if cards.len() == 2 {
                        let idx = (pi as u8) as usize;
                        proof {
                            lemma_trunc_u8(pi as int);
                        }
                        let ghost h0 = e.hole@;
                        e.hole.set(idx, Some([cards[0], cards[1]]));
                        proof {
                            let ns = card_step(s, node_view(*c), seats);
                            let v = node_view(*c);
                            assert(or_text(attr(v, "type"@), Seq::empty()) == "Pocket"@);
                            assert(attr(v, "player"@) == Some(pn@));
                            assert(player_named(seats, pn@, 0) == Some(pi as int));
                            assert(words_cards(text@, 0) == cards@);
                            assert(words_ascii_led(text@));
                            assert(ns.hole == s.hole.update((pi as int as u8) as int, Some((cards@[0], cards@[1]))));
                            assert(idx as int == (pi as int as u8) as int);
                            if !s.bad_cards {
                                assert forall|i: int| 0 <= i < ns.hole.len() implies cards_are(#[trigger] e.hole@[i], ns.hole[i]) by {
                                    if i != idx {
                                        assert(e.hole@[i] == h0[i]);
                                    }
                                }
                            }
                        }
                    }
                },
                None => {},
            },
            None => {},
        }
    } else if same_chars(&kind, &chars_of("Flop")) || same_chars(&kind, &chars_of("Turn")) || same_chars(
        &kind,
        &chars_of("River"),
    ) {
        let mut nb: Vec<Card> = Vec::new();
        let mut q: usize = 0;
        while q < e.board.len()
            invariant
                q <= e.board@.len(),
                nb@ == e.board@.take(q as int),
            decreases e.board@.len() - q,
        {
            nb.push(e.board[q]);
            assert(e.board@.take(q + 1) =~= e.board@.take(q as int).push(e.board@[q as int]));
            q = q + 1;
        }
        assert(e.board@.take(e.board@.len() as int) =~= e.board@);
        let ghost b0 = nb@;
        let mut k: usize = 0;
        while k < cards.len()
            invariant
                k <= cards@.len(),
                nb@ == b0 + cards@.take(k as int),
            decreases cards@.len() - k,
        {
            nb.push(cards[k]);
            assert(b0 + cards@.take(k + 1) =~= (b0 + cards@.take(k as int)).push(cards@[k as int]));
            k = k + 1;
        }
        assert(cards@.take(cards@.len() as int) =~= cards@);
        let ghost v = node_view(*c);
        assert(or_text(attr(v, "type"@), Seq::empty()) == kind@);
        assert(kind@ != "Pocket"@);
        assert(kind@ == "Flop"@ || kind@ == "Turn"@ || kind@ == "River"@);
        assert(words_ascii_led(or_text(v.5, Seq::empty())));
        assert(words_cards(or_text(v.5, Seq::empty()), 0) == cards@);
        assert(card_step(s, v, seats) == GState { board: s.board + cards@, ..s });
        e.board = nb;
    } else {
        let ghost v = node_view(*c);
        assert(or_text(attr(v, "type"@), Seq::empty()) == kind@);
        assert(kind@ != "Pocket"@);
        assert(kind@ != "Flop"@ && kind@ != "Turn"@ && kind@ != "River"@);
        assert(words_ascii_led(or_text(v.5, Seq::empty())));
        assert(card_step(s, v, seats) == s);
    }
}

/// The number attribute `no` of an element (see `no_of`).
fn no_exec(x: &XmlNode) -> (r: u32)
    ensures
        r as int == no_of(node_view(*x)),
{
    match attr_exec(x, "no") {
        Some(v) => match parse_u32_exec(&v) {
            Some(n) => n,
            None => 0,
        },
        None => 0,
    }
}

/// An `<action>` element (see `act_step`).
#[verifier::rlimit(40)]
fn act_exec(
    e: &mut GExec,
    a: &XmlNode,
    names: &Vec<Vec<char>>,
    street: u8,
    Ghost(s): Ghost<GState>,
    Ghost(seats): Ghost<Seq<PlayerText>>,
)
    requires
        g_is(*old(e), s),
        names@.len() == seats.len(),
        forall|i: int| 0 <= i < seats.len() ==> (#[trigger] names@[i])@ == seats[i].0,
    ensures
        g_is(*final(e), act_step(s, node_view(*a), seats, street)),
        act_step(s, node_view(*a), seats, street).hole == s.hole,
        act_step(s, node_view(*a), seats, street).bad_cards == s.bad_cards,
{
    proof {
        reveal_strlit("");
        reveal_strlit("0");
    }
    let pn = match attr_exec(a, "player") {
        Some(v) => v,
        None => return,
    };
    let pi = match player_named_exec(names, &pn, Ghost(seats)) {
        Some(x) => x,
        None => return,
    };
    let sum = attr_or(a, "sum", "0");
    let t: u32 = match attr_exec(a, "type") {
        Some(v) => match parse_u32_exec(&v) {
            Some(x) => x,
            None => 0,
        },
        None => 0,
    };
    let kt: Option<(Option<ActKind>, bool, bool)> = if t == 0 {
        Some((Some(ActKind::Fold), false, false))
    } else if t == 1 {
        Some((Some(ActKind::SmallBlind), true, false))
    } else if t == 2 {
        Some((Some(ActKind::BigBlind), true, false))
    } else if t == 3 {
        Some((Some(ActKind::Call), true, false))
    } else if t == 4 {
        Some((Some(ActKind::Check), false, false))
    } else if t == 5 {
        Some((Some(ActKind::Bet), true, false))
    } else if t == 6 {
        Some((Some(ActKind::Raise), true, false))
    } else if t == 23 {
        Some((Some(ActKind::Raise), true, true))
    } else if t == 7 {
        Some((None, true, false))
    } else if t == 15 {
        Some((Some(ActKind::Ante), true, false))
    } else {
        None
    };
    match kt {
        None => {},
        Some((kind, with_sum, to_total)) => {
            let amount = if with_sum { crate::parser::expresso::read_num(&sum) } else { crate::parser::expresso::zero() };
            let ghost a0 = e.acts@;
            e.acts.push(IpkAct { street, p: pi as u8, kind, amount, part: e.part, to_total });
            proof {
                let ns = act_step(s, node_view(*a), seats, street);
                if !s.bad_cards {
                    assert forall|i: int| 0 <= i < ns.acts.len() implies ipk_act_is(#[trigger] e.acts@[i], ns.acts[i]) by {
                        if i < a0.len() {
                            assert(e.acts@[i] == a0[i]);
                        }
                    }
                }
            }
        },
    }
}

proof fn lemma_cards_upto_keeps(st: GState, xs: Seq<XmlView>, ck: Seq<int>, seats: Seq<PlayerText>, k: int)
    requires
        st.hole.len() == seats.len(),
    ensures
        cards_upto(st, xs, ck, seats, k).part == st.part,
        cards_upto(st, xs, ck, seats, k).last_street == st.last_street,
        cards_upto(st, xs, ck, seats, k).hole.len() == st.hole.len(),
    decreases k,
{
    if k > 0 {
        lemma_cards_upto_keeps(st, xs, ck, seats, k - 1);
        lemma_card_step_len(cards_upto(st, xs, ck, seats, k - 1), xs[ck[k - 1]], seats);
    }
}

proof fn lemma_acts_upto_keeps(st: GState, xs: Seq<XmlView>, order: Seq<int>, seats: Seq<PlayerText>, street: u8, k: int)
    ensures
        acts_upto(st, xs, order, seats, street, k).part == st.part,
        acts_upto(st, xs, order, seats, street, k).last_street == st.last_street,
        acts_upto(st, xs, order, seats, street, k).hole == st.hole,
        acts_upto(st, xs, order, seats, street, k).bad_cards == st.bad_cards,
    decreases k,
{
    if k > 0 {
        lemma_acts_upto_keeps(st, xs, order, seats, street, k - 1);
    }
}

/// A `<round>` element (see `round_step`).
#[verifier::rlimit(60)]
fn round_exec(
    e: &mut GExec,
    nodes: &Vec<XmlNode>,
    r: usize,
    names: &Vec<Vec<char>>,
    Ghost(s): Ghost<GState>,
    Ghost(seats): Ghost<Seq<PlayerText>>,
)
    requires
        g_is(*old(e), s),
        r < nodes@.len(),
        old(e).part < usize::MAX,
        names@.len() == seats.len() == s.hole.len(),
        forall|i: int| 0 <= i < seats.len() ==> (#[trigger] names@[i])@ == seats[i].0,
    ensures
        g_is(*final(e), round_step(s, nodes_view(nodes@), r as int, seats)),
        round_step(s, nodes_view(nodes@), r as int, seats).hole.len() == s.hole.len(),
        final(e).part <= old(e).part + 1,
{
    let ghost xs = nodes_view(nodes@);
    assert(xs[r as int] == node_view(nodes@[r as int]));
    let no = no_exec(&nodes[r]);
    let street: u8 = if no <= 1 { 0 } else if no == 2 { 1 } else if no == 3 { 2 } else { 3 };
    if street != e.last_street {
        e.part = e.part + 1;
        e.last_street = street;
    }
    let ghost s1 = if street != s.last_street { GState { part: s.part + 1, last_street: street, ..s } } else { s };
    let rid = nodes[r].id;
    let ck = kids_exec(nodes, rid, "cards");
    let ghost ckv = kids(xs, rid as int, "cards"@, xs.len() as int);
    assert(ix_view(ck@) =~= ckv);
    let mut k: usize = 0;
    while k < ck.len()
        invariant
            k <= ck@.len(),
            xs == nodes_view(nodes@),
            ix_view(ck@) == ckv,
            forall|q: int| 0 <= q < ck@.len() ==> #[trigger] ck@[q] < nodes@.len(),
            names@.len() == seats.len() == s1.hole.len(),
            forall|i: int| 0 <= i < seats.len() ==> (#[trigger] names@[i])@ == seats[i].0,
            g_is(*e, cards_upto(s1, xs, ckv, seats, k as int)),
            cards_upto(s1, xs, ckv, seats, k as int).hole.len() == s1.hole.len(),
        decreases ck@.len() - k,
    {
        let node = ck[k];
        assert(ckv[k as int] == node as int);
        assert(xs[node as int] == node_view(nodes@[node as int]));
        card_exec(e, &nodes[node], names, Ghost(cards_upto(s1, xs, ckv, seats, k as int)), Ghost(seats));
        k = k + 1;
    }
    proof {
        lemma_cards_upto_keeps(s1, xs, ckv, seats, ckv.len() as int);
    }
    let ghost s2 = cards_upto(s1, xs, ckv, seats, ckv.len() as int);
    let ak = kids_exec(nodes, rid, "action");
    let ghost akv = kids(xs, rid as int, "action"@, xs.len() as int);
    assert(ix_view(ak@) =~= akv);
    let mut keys: Vec<(u32, usize)> = Vec::new();
    let mut i: usize = 0;
    while i < ak.len()
        invariant
            i <= ak@.len(),
            xs == nodes_view(nodes@),
            ix_view(ak@) == akv,
            forall|q: int| 0 <= q < ak@.len() ==> #[trigger] ak@[q] < nodes@.len(),
            pairs_view(keys@) == no_keys(xs, akv).take(i as int),
            forall|q: int| 0 <= q < keys@.len() ==> #[trigger] keys@[q].1 < nodes@.len(),
        decreases ak@.len() - i,
    {
        let node = ak[i];
        assert(xs[node as int] == node_view(nodes@[node as int]));
        let n = no_exec(&nodes[node]);
        let ghost kb = keys@;
        keys.push((n, node));
        assert(ix_view(ak@)[i as int] == node as int);
        assert(no_keys(xs, akv)[i as int] == (n as int, node as int));
        assert(pairs_view(keys@) =~= pairs_view(kb).push((n as int, node as int)));
        assert(no_keys(xs, akv).take(i + 1) =~= no_keys(xs, akv).take(i as int).push((n as int, node as int)));
        i = i + 1;
    }
    assert(no_keys(xs, akv).take(ak@.len() as int) =~= no_keys(xs, akv));
    let sorted = sort_by_key_exec(&keys);
    let ghost order = payloads(sorted_by_key(no_keys(xs, akv), akv.len() as int));
    assert forall|q: int| 0 <= q < sorted@.len() implies #[trigger] sorted@[q].1 < nodes@.len() by {
        let j = choose|j: int| 0 <= j < keys@.len() && sorted@[q] == keys@[j];
        assert(keys@[j].1 < nodes@.len());
    }
    assert forall|q: int| 0 <= q < sorted@.len() implies #[trigger] sorted@[q].1 as int == order[q] by {
        assert(pairs_view(sorted@)[q] == sorted_by_key(no_keys(xs, akv), akv.len() as int)[q]);
    }
    let mut j: usize = 0;
    while j < sorted.len()
        invariant
            j <= sorted@.len(),
            xs == nodes_view(nodes@),
            order.len() == sorted@.len(),
            forall|q: int| 0 <= q < sorted@.len() ==> #[trigger] sorted@[q].1 as int == order[q],
            forall|q: int| 0 <= q < sorted@.len() ==> #[trigger] sorted@[q].1 < nodes@.len(),
            names@.len() == seats.len(),
            forall|i: int| 0 <= i < seats.len() ==> (#[trigger] names@[i])@ == seats[i].0,
            g_is(*e, acts_upto(s2, xs, order, seats, street, j as int)),
        decreases sorted@.len() - j,
    {
        let node = sorted[j].1;
        assert(xs[node as int] == node_view(nodes@[node as int]));
        act_exec(e, &nodes[node], names, street, Ghost(acts_upto(s2, xs, order, seats, street, j as int)), Ghost(seats));
        j = j + 1;
    }
    proof {
        lemma_acts_upto_keeps(s2, xs, order, seats, street, order.len() as int);
        assert(street == street_of(no_of(xs[r as int])));
    }
}

/// A hand of the file, read.
pub struct IpkGame {
    /// "ipk:" and the game's code
    pub id: String,
    pub ts: i64,
    pub sb: Decimal,
    pub bb: Decimal,
    pub ante: Decimal,
    /// the players in the order of their seats
    pub seats: Vec<IpkSeat>,
    pub button: u8,
    pub hero: u8,
    pub board: Vec<Card>,
    /// hole cards of each player, when shown
    pub hole: Vec<Option<[Card; 2]>>,
    pub actions: Vec<IpkAct>,
}

pub open spec fn game_reads(x: IpkGame, t: GameText) -> bool {
    &&& x.id@ == "ipk:"@ + t.gamecode
    &&& x.ts == t.ts
    &&& dec_is(x.sb, t.sb)
    &&& dec_is(x.bb, t.bb)
    &&& dec_is(x.ante, t.ante)
    &&& x.seats@.len() == t.seats.len()
    &&& forall|i: int| 0 <= i < t.seats.len() ==> seat_reads(#[trigger] x.seats@[i], t.seats[i])
    &&& x.button == t.button
    &&& x.hero == t.hero
    &&& x.board@ == t.play.board
    &&& x.hole@.len() == t.play.hole.len()
    &&& forall|i: int| 0 <= i < t.play.hole.len() ==> cards_are(#[trigger] x.hole@[i], t.play.hole[i])
    &&& x.actions@.len() == t.play.acts.len()
    &&& forall|i: int| 0 <= i < t.play.acts.len() ==> ipk_act_is(#[trigger] x.actions@[i], t.play.acts[i])
}

/// The start date of a game can be computed (when the game has a `<general>` element).
pub open spec fn game_date_fits(xs: Seq<XmlView>, g: int) -> bool {
    match child(xs, xs[g].0, "general"@) {
        Some(gg) => date_fits(child_text(xs, xs[gg].0, "startdate"@)),
        None => true,
    }
}

proof fn lemma_rounds_upto_keeps(st: GState, xs: Seq<XmlView>, order: Seq<int>, seats: Seq<PlayerText>, k: int)
    requires
        st.hole.len() == seats.len(),
    ensures
        rounds_upto(st, xs, order, seats, k).hole.len() == st.hole.len(),
    decreases k,
{
    if k > 0 {
        lemma_rounds_upto_keeps(st, xs, order, seats, k - 1);
        let p = rounds_upto(st, xs, order, seats, k - 1);
        let r = order[k - 1];
        let street = street_of(no_of(xs[r]));
        let p1 = if street != p.last_street { GState { part: p.part + 1, last_street: street, ..p } } else { p };
        let ck = kids(xs, xs[r].0, "cards"@, xs.len() as int);
        lemma_cards_upto_keeps(p1, xs, ck, seats, ck.len() as int);
        let p2 = cards_upto(p1, xs, ck, seats, ck.len() as int);
        let ak = kids(xs, xs[r].0, "action"@, xs.len() as int);
        let ord = payloads(sorted_by_key(no_keys(xs, ak), ak.len() as int));
        lemma_acts_upto_keeps(p2, xs, ord, seats, street_of(no_of(xs[r])), ord.len() as int);
    }
}

/// Reads a `<game>` element (see `spec_game`); the flag tells that a card text could not
/// be read, in which case only that is said.
#[verifier::rlimit(80)]
#[verifier::spinoff_prover]
fn game_exec(nodes: &Vec<XmlNode>, g: usize, hero: &Vec<char>, start: i64, Ghost(head): Ghost<IpkHead>) -> (r: Option<(IpkGame, bool)>)
    requires
        g < nodes@.len(),
        head.hero == hero@,
        head.start == start,
        game_date_fits(nodes_view(nodes@), g as int),
    ensures
        match r {
            None => spec_game(nodes_view(nodes@), g as int, head) is None,
            Some((x, bad)) => spec_game(nodes_view(nodes@), g as int, head) matches Some(t) && bad == t.play.bad_cards
                && (!bad ==> game_reads(x, t)),
        },
{
    proof {
        reveal_strlit("");
        reveal_strlit("ipk:");
    }
    let ghost xs = nodes_view(nodes@);
    assert(xs[g as int] == node_view(nodes@[g as int]));
    let gid = nodes[g].id;
    let gg = match child_exec(nodes, gid, "general") {
        Some(x) => x,
        None => return None,
    };
    assert(xs[gg as int] == node_view(nodes@[gg as int]));
    let ggid = nodes[gg].id;
    let pn = match child_exec(nodes, ggid, "players") {
        Some(x) => x,
        None => return None,
    };
    let (seats, names) = seats_exec(nodes, pn, hero);
    let ghost sv = game_seats(xs, pn as int, hero@);
    let ns = seats.len();
    // the hero
    let mut h: usize = 0;
    while h < ns && !seats[h].hero
        invariant
            h <= ns == seats@.len() == sv.len(),
            forall|i: int| 0 <= i < sv.len() ==> seat_reads(#[trigger] seats@[i], sv[i]),
            first_hero(sv, 0) == first_hero(sv, h as int),
        decreases ns - h,
    {
        assert(seat_reads(seats@[h as int], sv[h as int]));
        h = h + 1;
    }
    if h >= ns {
        return None;
    }
    assert(seat_reads(seats@[h as int], sv[h as int]));
    // the button: the last dealer
    let mut b: usize = 0;
    let mut q: usize = 0;
    while q < ns
        invariant
            q <= ns == seats@.len() == sv.len(),
            forall|i: int| 0 <= i < sv.len() ==> seat_reads(#[trigger] seats@[i], sv[i]),
            b as int == last_dealer(sv, q as int),
            b <= q,
        decreases ns - q,
    {
        assert(seat_reads(seats@[q as int], sv[q as int]));
        if seats[q].dealer {
            b = q;
        }
        q = q + 1;
    }
    // the rounds
    let rk = kids_exec(nodes, gid, "round");
    let ghost rkv = kids(xs, gid as int, "round"@, xs.len() as int);
    assert(ix_view(rk@) =~= rkv);
    let mut keys: Vec<(u32, usize)> = Vec::new();
    let mut i: usize = 0;
    while i < rk.len()
        invariant
            i <= rk@.len(),
            xs == nodes_view(nodes@),
            ix_view(rk@) == rkv,
            forall|q: int| 0 <= q < rk@.len() ==> #[trigger] rk@[q] < nodes@.len(),
            pairs_view(keys@) == no_keys(xs, rkv).take(i as int),
            forall|q: int| 0 <= q < keys@.len() ==> #[trigger] keys@[q].1 < nodes@.len(),
        decreases rk@.len() - i,
    {
        let node = rk[i];
        assert(xs[node as int] == node_view(nodes@[node as int]));
        let n = no_exec(&nodes[node]);
        let ghost kb = keys@;
        keys.push((n, node));
        assert(ix_view(rk@)[i as int] == node as int);
        assert(no_keys(xs, rkv)[i as int] == (n as int, node as int));
        assert(pairs_view(keys@) =~= pairs_view(kb).push((n as int, node as int)));
        assert(no_keys(xs, rkv).take(i + 1) =~= no_keys(xs, rkv).take(i as int).push((n as int, node as int)));
        i = i + 1;
    }
    assert(no_keys(xs, rkv).take(rk@.len() as int) =~= no_keys(xs, rkv));
    let sorted = sort_by_key_exec(&keys);
    let ghost order = payloads(sorted_by_key(no_keys(xs, rkv), rkv.len() as int));
    assert forall|q: int| 0 <= q < sorted@.len() implies #[trigger] sorted@[q].1 < nodes@.len() by {
        let j = choose|j: int| 0 <= j < keys@.len() && sorted@[q] == keys@[j];
        assert(keys@[j].1 < nodes@.len());
    }
    assert forall|q: int| 0 <= q < sorted@.len() implies #[trigger] sorted@[q].1 as int == order[q] by {
        assert(pairs_view(sorted@)[q] == sorted_by_key(no_keys(xs, rkv), rkv.len() as int)[q]);
    }
    let mut hole: Vec<Option<[Card; 2]>> = Vec::new();
    let mut z: usize = 0;
    while z < ns
        invariant
            z <= ns,
            hole@.len() == z,
            forall|i: int| 0 <= i < z ==> hole@[i] is None,
        decreases ns - z,
    {
        hole.push(None);
        z = z + 1;
    }
    let ghost st0 = GState {
        board: Seq::empty(),
        hole: Seq::new(sv.len(), |i: int| None),
        acts: Seq::empty(),
        last_street: 0,
        part: 0,
        bad_cards: false,
    };
    let mut e = GExec { board: Vec::new(), hole, acts: Vec::new(), last_street: 0, part: 0, bad_cards: false };
    let mut j: usize = 0;
    while j < sorted.len()
        invariant
            j <= sorted@.len(),
            xs == nodes_view(nodes@),
            order.len() == sorted@.len(),
            forall|q: int| 0 <= q < sorted@.len() ==> #[trigger] sorted@[q].1 as int == order[q],
            forall|q: int| 0 <= q < sorted@.len() ==> #[trigger] sorted@[q].1 < nodes@.len(),
            names@.len() == sv.len() == st0.hole.len(),
            forall|i: int| 0 <= i < sv.len() ==> (#[trigger] names@[i])@ == sv[i].0,
            g_is(e, rounds_upto(st0, xs, order, sv, j as int)),
            rounds_upto(st0, xs, order, sv, j as int).hole.len() == st0.hole.len(),
            e.part <= j,
        decreases sorted@.len() - j,
    {
        let node = sorted[j].1;
        round_exec(&mut e, nodes, node, &names, Ghost(rounds_upto(st0, xs, order, sv, j as int)), Ghost(sv));
        j = j + 1;
    }
    let ghost play = rounds_upto(st0, xs, order, sv, order.len() as int);
    // the fields
    let code = attr_or(&nodes[g], "gamecode", "");
    let sd = child_text_exec(nodes, ggid, "startdate");
    let ts: i64 = match crate::parser::parse_date(vec_string(&sd).as_str()) {
        Some(t) => t,
        None => start,
    };
    let bad = e.bad_cards;
    let x = IpkGame {
        id: crate::parser::expresso::prefixed("ipk:", &vec_string(&code)),
        ts,
        sb: crate::parser::expresso::read_num(&child_text_exec(nodes, ggid, "smallblind")),
        bb: crate::parser::expresso::read_num(&child_text_exec(nodes, ggid, "bigblind")),
        ante: crate::parser::expresso::read_num(&child_text_exec(nodes, ggid, "ante")),
        seats,
        button: b as u8,
        hero: h as u8,
        board: e.board,
        hole: e.hole,
        actions: e.acts,
    };
    Some((x, bad))
}

// ---------------------------------------------------------------- the file

/// Checks that the seconds of a duration "h:m:s" can be computed with `i64` arithmetic
/// (see `duration_fits`).
fn duration_in_range(d: &Vec<char>) -> (r: bool)
    ensures
        r == duration_fits(d@),
{
    let ps = crate::parser::expresso::split_chars(d, ':');
    let ghost pv = views(ps@);
    let mut nums: Vec<i64> = Vec::new();
    let mut k: usize = 0;
    while k < ps.len()
        invariant
            k <= ps@.len() == pv.len(),
            pv == views(ps@),
            pv == split_on(d@, ':'),
            nums@.len() == parsed_pieces(pv, k as int).len(),
            forall|i: int| 0 <= i < nums@.len() ==> #[trigger] nums@[i] as int == parsed_pieces(pv, k as int)[i],
        decreases ps@.len() - k,
    {
        assert(pv[k as int] == ps@[k as int]@);
        match parse_i64_exec(&ps[k]) {
            Some(x) => {
                nums.push(x);
            },
            None => {},
        }
        k = k + 1;
    }
    if nums.len() != 3 {
        return true;
    }
    let a = nums[0] as i128;
    let b = nums[1] as i128;
    let c = nums[2] as i128;
    let lo: i128 = -9223372036854775808i128;
    let hi: i128 = 9223372036854775807i128;
    let x = a * 3600;
    let y = b * 60;
    let z = x + y;
    let w = z + c;
    lo <= x && x <= hi && lo <= y && y <= hi && lo <= z && z <= hi && lo <= w && w <= hi
}

/// The `<game>` children of the root element.
pub open spec fn game_kids(xs: Seq<XmlView>, head: IpkHead) -> Seq<int> {
    kids(xs, xs[head.root].0, "game"@, xs.len() as int)
}

/// The games kept among the first `k` of `gk`, in order.
pub open spec fn games_upto(xs: Seq<XmlView>, gk: Seq<int>, head: IpkHead, k: int) -> Seq<GameText>
    decreases k,
{
    if k <= 0 {
        Seq::empty()
    } else {
        let prev = games_upto(xs, gk, head, k - 1);
        match spec_game(xs, gk[k - 1], head) {
            Some(t) => prev.push(t),
            None => prev,
        }
    }
}

/// The hands of the file: its `<game>` elements that `spec_game` keeps, in document order.
pub open spec fn spec_games(xs: Seq<XmlView>, head: IpkHead) -> Seq<GameText> {
    games_upto(xs, game_kids(xs, head), head, game_kids(xs, head).len() as int)
}

/// A game's start date can be computed and each word of its card texts starts with an
/// ASCII character (the card is split after its first byte).
pub open spec fn game_fits(xs: Seq<XmlView>, g: int, head: IpkHead) -> bool {
    game_date_fits(xs, g) && (spec_game(xs, g, head) matches Some(t) ==> !t.play.bad_cards)
}

/// The document can be read: its dates and duration can be computed with `i64`
/// arithmetic and its card texts split.
pub open spec fn nodes_fit(xs: Seq<XmlView>) -> bool {
    &&& head_fits(xs)
    &&& spec_ipk_head(xs) matches Ok(h) ==> forall|i: int|
        0 <= i < game_kids(xs, h).len() ==> game_fits(xs, #[trigger] game_kids(xs, h)[i], h)
}

/// A tournament file, read: its `<general>` element and its hands.
pub struct IpkFile {
    pub head: IpkHeadRead,
    pub games: Vec<IpkGame>,
}

pub open spec fn file_reads(f: IpkFile, h: IpkHead, games: Seq<GameText>) -> bool {
    &&& head_reads(f.head, h)
    &&& f.games@.len() == games.len()
    &&& forall|i: int| 0 <= i < games.len() ==> game_reads(#[trigger] f.games@[i], games[i])
}

/// Checks that a document can be read (see `nodes_fit`).
#[verifier::rlimit(40)]
pub fn ipk_fits_nodes(nodes: &Vec<XmlNode>) -> (r: bool)
    ensures
        r == nodes_fit(nodes_view(nodes@)),
{
    let ghost xs = nodes_view(nodes@);
    let (root, g) = match locate_general(nodes) {
        Ok(p) => p,
        Err(_) => return true,
    };
    let ghost h = match spec_ipk_head(xs) {
        Ok(t) => t,
        Err(_) => arbitrary(),
    };
    assert(xs[g as int] == node_view(nodes@[g as int]));
    assert(xs[root as int] == node_view(nodes@[root as int]));
    let gid = nodes[g].id;
    let sd = child_text_exec(nodes, gid, "startdate");
    if !crate::parser::date_in_range(vec_string(&sd).as_str()) {
        return false;
    }
    if !duration_in_range(&child_text_exec(nodes, gid, "duration")) {
        return false;
    }
    assert(head_fits(xs));
    let hero = chars_of(vec_string(&child_text_exec(nodes, gid, "nickname")).as_str());
    let start = match crate::parser::parse_date(vec_string(&sd).as_str()) {
        Some(t) => t,
        None => 0,
    };
    let gk = kids_exec(nodes, nodes[root].id, "game");
    let ghost gkv = game_kids(xs, h);
    let mut i: usize = 0;
    while i < gk.len()
        invariant
            i <= gk@.len() == gkv.len(),
            xs == nodes_view(nodes@),
            gkv == game_kids(xs, h),
            spec_ipk_head(xs) == Ok::<IpkHead, IpkRefusal>(h),
            h.hero == hero@,
            h.start == start,
            forall|q: int| 0 <= q < gk@.len() ==> #[trigger] gk@[q] as int == gkv[q],
            forall|q: int| 0 <= q < gk@.len() ==> #[trigger] gk@[q] < nodes@.len(),
            forall|q: int| 0 <= q < i ==> game_fits(xs, #[trigger] gkv[q], h),
        decreases gk@.len() - i,
    {
        let node = gk[i];
        assert(gk@[i as int] as int == gkv[i as int]);
        assert(xs[node as int] == node_view(nodes@[node as int]));
        let date_ok = match child_exec(nodes, nodes[node].id, "general") {
            Some(gg) => {
                assert(xs[gg as int] == node_view(nodes@[gg as int]));
                crate::parser::date_in_range(vec_string(&child_text_exec(nodes, nodes[gg].id, "startdate")).as_str())
            },
            None => true,
        };
        if !date_ok {
            assert(!game_fits(xs, gkv[i as int], h));
            return false;
        }
        match game_exec(nodes, node, &hero, start, Ghost(h)) {
            Some((_, bad)) => {
                if bad {
                    assert(!game_fits(xs, gkv[i as int], h));
                    return false;
                }
            },
            None => {},
        }
        i = i + 1;
    }
    true
}

/// Reads a tournament file from its document: the `<general>` element, then each
/// `<game>` element that `spec_game` keeps. A document without `<general>` element, or
/// without tournament code, is refused.
#[verifier::rlimit(40)]
pub fn read_ipoker_nodes(nodes: &Vec<XmlNode>) -> (r: Result<IpkFile, IpkRefusal>)
    requires
        nodes_fit(nodes_view(nodes@)),
    ensures
        match r {
            Ok(f) => spec_ipk_head(nodes_view(nodes@)) matches Ok(h) && file_reads(
                f,
                h,
                spec_games(nodes_view(nodes@), h),
            ),
            Err(e) => spec_ipk_head(nodes_view(nodes@)) == Err::<IpkHead, IpkRefusal>(e),
        },
{
    let ghost xs = nodes_view(nodes@);
    let head = match read_head(nodes) {
        Ok(h) => h,
        Err(e) => return Err(e),
    };
    let ghost h = match spec_ipk_head(xs) {
        Ok(t) => t,
        Err(_) => arbitrary(),
    };
    assert(xs[head.root as int] == node_view(nodes@[head.root as int]));
    let hero = chars_of(head.hero.as_str());
    let gk = kids_exec(nodes, nodes[head.root].id, "game");
    let ghost gkv = game_kids(xs, h);
    let mut games: Vec<IpkGame> = Vec::new();
    let mut i: usize = 0;
    while i < gk.len()
        invariant
            i <= gk@.len() == gkv.len(),
            xs == nodes_view(nodes@),
            gkv == game_kids(xs, h),
            nodes_fit(xs),
            spec_ipk_head(xs) == Ok::<IpkHead, IpkRefusal>(h),
            h.hero == hero@,
            h.start == head.start,
            forall|q: int| 0 <= q < gk@.len() ==> #[trigger] gk@[q] as int == gkv[q],
            forall|q: int| 0 <= q < gk@.len() ==> #[trigger] gk@[q] < nodes@.len(),
            games@.len() == games_upto(xs, gkv, h, i as int).len(),
            forall|q: int| 0 <= q < games@.len() ==> game_reads(#[trigger] games@[q], games_upto(xs, gkv, h, i as int)[q]),
        decreases gk@.len() - i,
    {
        let node = gk[i];
        assert(gk@[i as int] as int == gkv[i as int]);
        assert(game_fits(xs, gkv[i as int], h));
        let ghost before = games_upto(xs, gkv, h, i as int);
        match game_exec(nodes, node, &hero, head.start, Ghost(h)) {
            Some((x, _)) => {
                games.push(x);
            },
            None => {},
        }
        assert(games_upto(xs, gkv, h, i + 1) == match spec_game(xs, gkv[i as int], h) {
            Some(t) => before.push(t),
            None => before,
        });
        i = i + 1;
    }
    Ok(IpkFile { head, games })
}

/// Words of a refusal.
pub open spec fn refusal_text(e: IpkRefusal) -> Seq<char> {
    match e {
        IpkRefusal::NotXml => "XML invalide"@,
        IpkRefusal::NoGeneral => "balise <general> manquante"@,
        IpkRefusal::NotTournament => "pas un tournoi (cash game ignoré)"@,
    }
}

/// The words of a refusal (see `refusal_text`).
pub fn refusal_message(e: IpkRefusal) -> (r: String)
    ensures
        r@ == refusal_text(e),
{
    match e {
        IpkRefusal::NotXml => String::from_str("XML invalide"),
        IpkRefusal::NoGeneral => String::from_str("balise <general> manquante"),
        IpkRefusal::NotTournament => String::from_str("pas un tournoi (cash game ignoré)"),
    }
}

/// Reads an iPoker tournament file. Text that is not well-formed XML is refused with
/// "XML invalide: " and the parser's words; a document without `<general>` element or
/// without tournament code is refused (see `refusal_text`); otherwise the file is read
/// (see `read_ipoker_nodes`). Nothing comes back for a document whose dates or duration
/// overflow `i64` or whose card texts cannot be split (see `nodes_fit`).
pub fn read_ipoker(content: &str) -> (r: Option<Result<IpkFile, String>>)
    ensures
        match xml_document(content@) {
            None => r matches Some(Err(m)) && "XML invalide: "@.is_prefix_of(m@),
            Some(xs) => if !nodes_fit(xs) {
                r is None
            } else {
                match spec_ipk_head(xs) {
                    Err(e) => r matches Some(Err(m)) && m@ == refusal_text(e),
                    Ok(h) => r matches Some(Ok(f)) && file_reads(f, h, spec_games(xs, h)),
                }
            },
        },
{
    match parse_xml(content) {
        Err(m) => {
            let t = crate::parser::expresso::prefixed("XML invalide: ", &m);
            assert("XML invalide: "@.is_prefix_of(t@)) by {
                assert(t@.subrange(0, "XML invalide: "@.len() as int) =~= "XML invalide: "@);
            }
            Some(Err(t))
        },
        Ok(nodes) => {
            if !ipk_fits_nodes(&nodes) {
                return None;
            }
            match read_ipoker_nodes(&nodes) {
                Ok(f) => Some(Ok(f)),
                Err(e) => Some(Err(refusal_message(e))),
            }
        },
    }
}

// ---------------------------------------------------------------- the room

/// The text in lower case as `str::to_lowercase` gives it (Unicode's lowercase mapping).
pub uninterp spec fn lowercase(s: Seq<char>) -> Seq<char>;

/// `str::to_lowercase`. Claimed: the result depends on the text alone (`lowercase`); what
/// Unicode's mapping gives is not stated.
#[verifier::external_body]
fn lower(s: &str) -> (r: String)
    ensures
        r@ == lowercase(s@),
{
    s.to_lowercase()
}

/// The words that name a room, in the order they are looked for.
pub open spec fn room_words() -> Seq<Seq<char>> {
    seq![
        "betclic"@,
        "unibet"@,
        "pmu"@,
        "fdj"@,
        "barriere"@,
        "partouche"@,
        "netbet"@,
        "bwin"@,
        "redbet"@,
    ]
}

/// The room's name for each word of `room_words`.
pub open spec fn room_names() -> Seq<Seq<char>> {
    seq![
        "Betclic"@,
        "Unibet"@,
        "PMU"@,
        "FDJ"@,
        "Barrière"@,
        "Partouche"@,
        "NetBet"@,
        "Bwin"@,
        "Redbet"@,
    ]
}

/// The room of the first word from the `i`-th on that occurs in `t`; empty without one.
pub open spec fn room_from(t: Seq<char>, i: int) -> Seq<char>
    decreases 9 - i,
{
    if i < 0 || i >= 9 {
        Seq::empty()
    } else if contains(t, room_words()[i]) {
        room_names()[i]
    } else {
        room_from(t, i + 1)
    }
}

/// The room of an iPoker file from its path and the beginning of its text (the document is
/// the same for every room): the path in lower case, with " betclic" added when the
/// beginning of the text names Betclic, and the first room word found in it.
pub open spec fn spec_ipk_room(source: Seq<char>, head: Seq<char>) -> Seq<char> {
    let t = if contains(lowercase(head), "betclic"@) {
        lowercase(source) + " betclic"@
    } else {
        lowercase(source)
    };
    room_from(t, 0)
}

/// The beginning of a text: its first 4096 bytes, or the whole text when they end inside a
/// character.
pub open spec fn text_head(content: &str, h: &str) -> bool {
    let len = content.len() as int;
    let n = if len < 4096 { len } else { 4096 };
    if vstd::utf8::is_char_boundary(content.spec_bytes(), n) {
        h.spec_bytes() == content.spec_bytes().subrange(0, n)
    } else {
        h@ == content@
    }
}

/// The room of an iPoker file (see `spec_ipk_room`, `text_head`).
pub fn ipk_room(source: &str, content: &str) -> (r: String)
    ensures
        exists|h: &str| text_head(content, h) && r@ == spec_ipk_room(source@, h@),
{
    proof {
        reveal_strlit("betclic");
        reveal_strlit(" betclic");
    }
    let len = content.len();
    let n: usize = if len < 4096 { len } else { 4096 };
    let head: &str = if content.is_char_boundary(n) { content.split_at(n).0 } else { content };
    assert(text_head(content, head));
    let mut t = lower(source);
    if contains_exec(&chars_of(lower(head).as_str()), &chars_of("betclic")) {
        t.append(" betclic");
    }
    let tv = chars_of(t.as_str());
    assert(tv@ == (if contains(lowercase(head@), "betclic"@) {
        lowercase(source@) + " betclic"@
    } else {
        lowercase(source@)
    }));
    let words = ["betclic", "unibet", "pmu", "fdj", "barriere", "partouche", "netbet", "bwin", "redbet"];
    let names = ["Betclic", "Unibet", "PMU", "FDJ", "Barrière", "Partouche", "NetBet", "Bwin", "Redbet"];
    let mut i: usize = 0;
    while i < 9
        invariant
            i <= 9,
            words@.len() == 9,
            names@.len() == 9,
            forall|k: int| 0 <= k < 9 ==> (#[trigger] words@[k])@ == room_words()[k],
            forall|k: int| 0 <= k < 9 ==> (#[trigger] names@[k])@ == room_names()[k],
            room_from(tv@, 0) == room_from(tv@, i as int),
            text_head(content, head),
            tv@ == (if contains(lowercase(head@), "betclic"@) {
                lowercase(source@) + " betclic"@
            } else {
                lowercase(source@)
            }),
        decreases 9 - i,
    {
        if contains_exec(&tv, &chars_of(words[i])) {
            return String::from_str(names[i]);
        }
        i = i + 1;
    }
    String::new()
}

} // verus!
