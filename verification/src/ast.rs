//! The syntax tree of a parsed pattern.

use crate::seps::Seps;
use vstd::prelude::*;

verus! {

/// A parsed pattern: how many `!` it starts with, and what follows them.
#[derive(Debug, Clone, PartialEq, Eq)]
pub struct Ast {
    pub negation_count: u32,
    pub body: Node,
}

impl Ast {
    /// An odd number of `!` negates the pattern.
    pub open spec fn negated(&self) -> bool {
        self.negation_count % 2 == 1
    }

    pub fn is_negated(&self) -> (r: bool)
        ensures
            r == self.negated(),
    {
        self.negation_count % 2 == 1
    }
}

/// One node of the syntax tree.
#[derive(Debug, PartialEq, Eq)]
pub enum Node {
    /// Concatenation of zero or more nodes.
    Concat(Vec<Node>),
    /// Literal bytes, no metacharacters; consecutive literals are merged.
    Literal(Vec<u8>),
    /// Path separator `/`.
    Separator,
    /// `?`: one non-separator byte.
    AnyChar,
    /// `*`: zero or more non-separator bytes.
    Star,
    /// `**`: zero or more bytes across separators; owns a whole segment.
    Globstar,
    /// `[...]` character class.
    Class(CharClass),
    /// `{a,b,c}` brace alternation.
    Brace(Vec<Node>),
}

/// A `[...]` or `[!...]` class of bytes.
#[derive(Debug, PartialEq, Eq)]
pub struct CharClass {
    pub negated: bool,
    pub items: Vec<ClassItem>,
}

/// One entry of a class.
#[derive(Debug, Clone, Copy, PartialEq, Eq, Structural)]
pub enum ClassItem {
    Byte(u8),
    Range(u8, u8),
}

/// The mathematical value of a [`Node`].
#[verifier::ext_equal]
pub enum SpecNode {
    Concat(Seq<SpecNode>),
    Literal(Seq<u8>),
    Separator,
    AnyChar,
    Star,
    Globstar,
    Class(SpecClass),
    Brace(Seq<SpecNode>),
}

/// The mathematical value of a [`CharClass`].
#[verifier::ext_equal]
pub struct SpecClass {
    pub negated: bool,
    pub items: Seq<ClassItem>,
}

impl View for CharClass {
    type V = SpecClass;

    open spec fn view(&self) -> SpecClass {
        SpecClass { negated: self.negated, items: self.items@ }
    }
}

impl View for Node {
    type V = SpecNode;

    open spec fn view(&self) -> SpecNode {
        node_view(*self)
    }
}

pub open spec fn node_view(n: Node) -> SpecNode
    decreases n,
{
    match n {
        Node::Concat(xs) => SpecNode::Concat(nodes_view(xs@)),
        Node::Literal(b) => SpecNode::Literal(b@),
        Node::Separator => SpecNode::Separator,
        Node::AnyChar => SpecNode::AnyChar,
        Node::Star => SpecNode::Star,
        Node::Globstar => SpecNode::Globstar,
        Node::Class(c) => SpecNode::Class(c@),
        Node::Brace(xs) => SpecNode::Brace(nodes_view(xs@)),
    }
}

pub open spec fn nodes_view(s: Seq<Node>) -> Seq<SpecNode>
    decreases s,
{
    Seq::new(s.len(), |i: int| if 0 <= i < s.len() { node_view(s[i]) } else { SpecNode::Separator })
}

/// The ASCII letter of the other case; every other byte stands for itself.
pub open spec fn case_alt(b: u8) -> u8 {
    if 0x41 <= b <= 0x5a {
        (b + 0x20) as u8
    } else if 0x61 <= b <= 0x7a {
        (b - 0x20) as u8
    } else {
        b
    }
}

/// `a` and `b` are the same byte, up to ASCII case where `ci` is set.
pub open spec fn same_byte(ci: bool, a: u8, b: u8) -> bool {
    a == b || (ci && a == case_alt(b))
}

/// `item` names `b`.
pub open spec fn covers(item: ClassItem, b: u8) -> bool {
    match item {
        ClassItem::Byte(x) => x == b,
        ClassItem::Range(lo, hi) => lo <= b <= hi,
    }
}

/// Some item of `items` names `b`.
pub open spec fn listed(items: Seq<ClassItem>, b: u8) -> bool {
    exists|i: int| 0 <= i < items.len() && covers(#[trigger] items[i], b)
}

/// The class accepts `b`: never a separator, and otherwise what is listed,
/// or what is not where the class is negated.
pub open spec fn class_has(c: SpecClass, seps: Seps, b: u8) -> bool {
    !seps.has(b) && (listed(c.items, b) != c.negated)
}

/// The other-case letters of the bytes from `lo` to `hi`, in byte order.
pub open spec fn alts_in(lo: int, hi: int) -> Seq<ClassItem>
    decreases hi - lo + 1,
{
    if hi < lo {
        seq![]
    } else {
        alts_in(lo, hi - 1) + alt_item(hi as u8)
    }
}

/// The other-case letter of `b`, if there is one.
pub open spec fn alt_item(b: u8) -> Seq<ClassItem> {
    if case_alt(b) != b {
        seq![ClassItem::Byte(case_alt(b))]
    } else {
        seq![]
    }
}

/// An item with what names the same letters in the other case.
pub open spec fn fold_item(item: ClassItem) -> Seq<ClassItem> {
    seq![item] + match item {
        ClassItem::Byte(b) => alt_item(b),
        ClassItem::Range(lo, hi) => if lo >= 0x41 && hi <= 0x5a {
            seq![ClassItem::Range(lo | 0x20, hi | 0x20)]
        } else if lo >= 0x61 && hi <= 0x7a {
            seq![ClassItem::Range(lo & !0x20, hi & !0x20)]
        } else {
            alts_in(lo as int, hi as int)
        },
    }
}

pub open spec fn fold_items(items: Seq<ClassItem>) -> Seq<ClassItem>
    decreases items.len(),
{
    if items.len() == 0 {
        seq![]
    } else {
        fold_items(items.drop_last()) + fold_item(items.last())
    }
}

/// The class that ignores ASCII case.
pub open spec fn fold_class(c: SpecClass) -> SpecClass {
    SpecClass { negated: c.negated, items: fold_items(c.items) }
}

impl ClassItem {
    pub fn matches(self, b: u8) -> (r: bool)
        ensures
            r == covers(self, b),
    {
        match self {
            ClassItem::Byte(x) => x == b,
            ClassItem::Range(lo, hi) => lo <= b && b <= hi,
        }
    }
}

/// The ASCII letter of the other case; every other byte stands for itself.
#[inline]
pub fn ascii_case_alt(b: u8) -> (r: u8)
    ensures
        r == case_alt(b),
{
    if 0x41 <= b && b <= 0x5a {
        b + 0x20
    } else if 0x61 <= b && b <= 0x7a {
        b - 0x20
    } else {
        b
    }
}

/// Compares two bytes, up to ASCII case where `ci` is set.
#[inline]
pub fn eq_byte(ci: bool, a: u8, b: u8) -> (r: bool)
    ensures
        r == same_byte(ci, a, b),
{
    a == b || (ci && a == ascii_case_alt(b))
}

impl Clone for CharClass {
    fn clone(&self) -> (r: Self)
        ensures
            r@ == self@,
    {
        let items: Vec<ClassItem> = self.items.clone();
        assert(items@ =~= self.items@);
        CharClass { negated: self.negated, items }
    }
}

impl CharClass {
    /// Whether the class accepts `b`, with `seps` as the separators.
    pub fn matches_with(&self, seps: Seps, b: u8) -> (r: bool)
        ensures
            r == class_has(self@, seps, b),
    {
        if seps.is_sep(b) {
            return false;
        }
        let mut i: usize = 0;
        while i < self.items.len()
            invariant
                i <= self.items.len(),
                !seps.has(b),
                forall|k: int| 0 <= k < i ==> !covers(#[trigger] self.items@[k], b),
            decreases self.items.len() - i,
        {
            if self.items[i].matches(b) {
                return !self.negated;
            }
            i = i + 1;
        }
        self.negated
    }

    /// Whether the class accepts `b` on this platform. Platforms differ on
    /// `\` alone.
    pub fn matches(&self, b: u8) -> (r: bool)
        ensures
            b != 0x5c ==> r == class_has(self@, Seps { backslash: false }, b),
            b == 0x5c ==> (r ==> class_has(self@, Seps { backslash: false }, b)),
    {
        self.matches_with(Seps::platform(), b)
    }

    /// The two cases of an ASCII letter, `None` for any other byte.
    pub(crate) fn ci_letter(b: u8) -> (r: Option<Self>)
        ensures
            r is Some <==> case_alt(b) != b,
            r is Some ==> r->0@ == (SpecClass {
                negated: false,
                items: seq![ClassItem::Byte(b), ClassItem::Byte(case_alt(b))],
            }),
    {
        let alt: u8 = ascii_case_alt(b);
        if alt != b {
            let items: Vec<ClassItem> = vec![ClassItem::Byte(b), ClassItem::Byte(alt)];
            Some(CharClass { negated: false, items })
        } else {
            None
        }
    }

    pub fn expanded_ascii_case_insensitive(&self) -> (r: Self)
        ensures
            r@ == fold_class(self@),
    {
        let mut items: Vec<ClassItem> = Vec::new();
        let mut i: usize = 0;
        while i < self.items.len()
            invariant
                i <= self.items.len(),
                items@ == fold_items(self.items@.take(i as int)),
            decreases self.items.len() - i,
        {
            let item: ClassItem = self.items[i];
            let ghost before = items@;
            items.push(item);
            match item {
                ClassItem::Byte(b) => {
                    let alt: u8 = ascii_case_alt(b);
                    if alt != b {
                        items.push(ClassItem::Byte(alt));
                    }
                },
                ClassItem::Range(lo, hi) => {
                    if lo >= 0x41 && hi <= 0x5a {
                        items.push(ClassItem::Range(lo | 0x20, hi | 0x20));
                    } else if lo >= 0x61 && hi <= 0x7a {
                        items.push(ClassItem::Range(lo & !0x20, hi & !0x20));
                    } else if lo <= hi {
                        push_alts(&mut items, lo, hi);
                    }
                },
            }
            proof {
                let next = self.items@.take(i + 1);
                assert(next.drop_last() =~= self.items@.take(i as int));
                assert(next.last() == item);
                assert(items@ =~= before + fold_item(item));
            }
            i = i + 1;
        }
        assert(self.items@.take(i as int) =~= self.items@);
        CharClass { negated: self.negated, items }
    }
}

/// Appends the other-case letters of the bytes from `lo` to `hi`.
fn push_alts(items: &mut Vec<ClassItem>, lo: u8, hi: u8)
    requires
        lo <= hi,
    ensures
        final(items)@ == old(items)@ + alts_in(lo as int, hi as int),
{
    let mut b: u8 = lo;
    assert(items@ =~= old(items)@ + alts_in(lo as int, lo - 1));
    loop
        invariant_except_break
            items@ == old(items)@ + alts_in(lo as int, b - 1),
        invariant
            lo <= b <= hi,
        ensures
            items@ == old(items)@ + alts_in(lo as int, hi as int),
        decreases hi - b,
    {
        let alt: u8 = ascii_case_alt(b);
        if alt != b {
            items.push(ClassItem::Byte(alt));
        }
        assert(items@ =~= old(items)@ + alts_in(lo as int, b as int));
        if b == hi {
            break;
        }
        b = b + 1;
    }
}

impl Clone for Node {
    fn clone(&self) -> (r: Self)
        ensures
            r@ == self@,
        decreases self,
    {
        match self {
            Node::Concat(xs) => Node::Concat(clone_nodes(xs)),
            Node::Literal(b) => {
                let bytes: Vec<u8> = b.clone();
                assert(bytes@ =~= b@);
                Node::Literal(bytes)
            },
            Node::Separator => Node::Separator,
            Node::AnyChar => Node::AnyChar,
            Node::Star => Node::Star,
            Node::Globstar => Node::Globstar,
            Node::Class(c) => Node::Class(c.clone()),
            Node::Brace(xs) => Node::Brace(clone_nodes(xs)),
        }
    }
}

pub(crate) fn clone_nodes(xs: &Vec<Node>) -> (r: Vec<Node>)
    ensures
        nodes_view(r@) == nodes_view(xs@),
    decreases xs,
{
    let mut out: Vec<Node> = Vec::new();
    for i in 0..xs.len()
        invariant
            out@.len() == i,
            forall|k: int| 0 <= k < i ==> node_view(#[trigger] out@[k]) == node_view(xs@[k]),
    {
        assert(decreases_to!(xs => xs@[i as int]));
        out.push(xs[i].clone());
    }
    assert(nodes_view(out@) =~= nodes_view(xs@));
    out
}

/// A `**` occurs somewhere in the node.
pub open spec fn mentions_globstar(n: SpecNode) -> bool
    decreases n, 0int,
{
    match n {
        SpecNode::Globstar => true,
        SpecNode::Concat(xs) => some_mentions_globstar(xs),
        SpecNode::Brace(xs) => some_mentions_globstar(xs),
        _ => false,
    }
}

pub open spec fn some_mentions_globstar(xs: Seq<SpecNode>) -> bool
    decreases xs, 1int,
{
    exists|i: int| 0 <= i < xs.len() && mentions_globstar(#[trigger] xs[i])
}

/// The node is built of literals and separators alone.
pub open spec fn pure_literal(n: SpecNode) -> bool
    decreases n, 0int,
{
    match n {
        SpecNode::Literal(_) => true,
        SpecNode::Separator => true,
        SpecNode::Concat(xs) => all_pure(xs),
        _ => false,
    }
}

pub open spec fn all_pure(xs: Seq<SpecNode>) -> bool
    decreases xs, 1int,
{
    forall|i: int| 0 <= i < xs.len() ==> pure_literal(#[trigger] xs[i])
}

/// The bytes that the literals and separators of the node spell.
pub open spec fn literal_bytes(n: SpecNode) -> Seq<u8>
    decreases n, 0int,
{
    match n {
        SpecNode::Literal(b) => b,
        SpecNode::Separator => seq![0x2f],
        SpecNode::Concat(xs) => literal_bytes_all(xs),
        _ => seq![],
    }
}

pub open spec fn literal_bytes_all(xs: Seq<SpecNode>) -> Seq<u8>
    decreases xs, xs.len(),
{
    if xs.len() == 0 {
        seq![]
    } else {
        literal_bytes_all(xs.drop_last()) + literal_bytes(xs.last())
    }
}

/// No empty literal, no brace without branches and no range that runs backwards
/// anywhere: what the parser gives.
pub open spec fn sound(n: SpecNode) -> bool
    decreases n, 0int,
{
    match n {
        SpecNode::Literal(b) => b.len() > 0,
        SpecNode::Class(c) => ranges_ordered(c.items),
        SpecNode::Concat(xs) => all_sound(xs),
        SpecNode::Brace(bs) => bs.len() > 0 && all_sound(bs),
        _ => true,
    }
}

pub open spec fn all_sound(xs: Seq<SpecNode>) -> bool
    decreases xs, 1int,
{
    forall|i: int| 0 <= i < xs.len() ==> sound(#[trigger] xs[i])
}

impl Node {
    pub fn has_globstar(&self) -> (r: bool)
        ensures
            r == mentions_globstar(self@),
        decreases self,
    {
        match self {
            Node::Globstar => true,
            Node::Concat(xs) => any_globstar(xs),
            Node::Brace(xs) => any_globstar(xs),
            _ => false,
        }
    }

    pub fn is_pure_literal(&self) -> (r: bool)
        ensures
            r == pure_literal(self@),
        decreases self,
    {
        match self {
            Node::Literal(_) => true,
            Node::Separator => true,
            Node::Concat(xs) => all_pure_literal(xs),
            _ => false,
        }
    }

    pub fn to_literal_bytes(&self) -> (r: Option<Vec<u8>>)
        ensures
            r is Some <==> pure_literal(self@),
            r is Some ==> r->0@ == literal_bytes(self@),
    {
        if !self.is_pure_literal() {
            return None;
        }
        let mut out: Vec<u8> = Vec::new();
        self.append_literal_bytes(&mut out);
        assert(out@ =~= literal_bytes(self@));
        Some(out)
    }

    fn append_literal_bytes(&self, out: &mut Vec<u8>)
        ensures
            final(out)@ == old(out)@ + literal_bytes(self@),
        decreases self,
    {
        match self {
            Node::Literal(bytes) => {
                out.extend_from_slice(bytes);
                assert(out@ =~= old(out)@ + bytes@);
            },
            Node::Separator => {
                out.push(0x2f);
                assert(out@ =~= old(out)@ + seq![0x2fu8]);
            },
            Node::Concat(xs) => append_all_literal_bytes(xs, out),
            _ => {
                assert(out@ =~= old(out)@ + Seq::<u8>::empty());
            },
        }
    }
}

fn all_pure_literal(xs: &Vec<Node>) -> (r: bool)
    ensures
        r == all_pure(nodes_view(xs@)),
    decreases xs,
{
    for i in 0..xs.len()
        invariant
            forall|k: int| 0 <= k < i ==> pure_literal(#[trigger] nodes_view(xs@)[k]),
    {
        assert(decreases_to!(xs => xs@[i as int]));
        assert(nodes_view(xs@)[i as int] == node_view(xs@[i as int]));
        if !xs[i].is_pure_literal() {
            return false;
        }
    }
    true
}

fn append_all_literal_bytes(xs: &Vec<Node>, out: &mut Vec<u8>)
    ensures
        final(out)@ == old(out)@ + literal_bytes_all(nodes_view(xs@)),
    decreases xs,
{
    let ghost views = nodes_view(xs@);
    assert(out@ =~= old(out)@ + literal_bytes_all(views.take(0)));
    for i in 0..xs.len()
        invariant
            views == nodes_view(xs@),
            out@ == old(out)@ + literal_bytes_all(views.take(i as int)),
    {
        assert(decreases_to!(xs => xs@[i as int]));
        assert(views[i as int] == node_view(xs@[i as int]));
        xs[i].append_literal_bytes(out);
        proof {
            let next = views.take(i + 1);
            assert(next.drop_last() =~= views.take(i as int));
            assert(next.last() == views[i as int]);
            assert(out@ =~= old(out)@ + literal_bytes_all(next));
        }
    }
    assert(views.take(xs@.len() as int) =~= views);
}

fn any_globstar(xs: &Vec<Node>) -> (r: bool)
    ensures
        r == some_mentions_globstar(nodes_view(xs@)),
    decreases xs,
{
    for i in 0..xs.len()
        invariant
            forall|k: int| 0 <= k < i ==> !mentions_globstar(#[trigger] nodes_view(xs@)[k]),
    {
        assert(decreases_to!(xs => xs@[i as int]));
        assert(nodes_view(xs@)[i as int] == node_view(xs@[i as int]));
        if xs[i].has_globstar() {
            return true;
        }
    }
    false
}

/// No listed range runs backwards.
pub open spec fn ranges_ordered(items: Seq<ClassItem>) -> bool {
    forall|i: int|
        0 <= i < items.len() ==> (#[trigger] items[i] matches ClassItem::Range(lo, hi) ==> lo <= hi)
}

proof fn lemma_alts_listed(lo: int, hi: int, b: u8)
    requires
        0 <= lo,
        hi <= 255,
    ensures
        listed(alts_in(lo, hi), b) <==> (case_alt(b) != b && lo <= case_alt(b) <= hi),
    decreases hi - lo + 1,
{
    if hi >= lo {
        lemma_alts_listed(lo, hi - 1, b);
        let head = alts_in(lo, hi - 1);
        let all = alts_in(lo, hi);
        let tail = alt_item(hi as u8);
        assert(all == head + tail);
        lemma_listed_concat(head, tail, b);
        if case_alt(hi as u8) != hi {
            assert(tail[0] == ClassItem::Byte(case_alt(hi as u8)));
        }
        assert(listed(tail, b) <==> (case_alt(hi as u8) != hi && b == case_alt(hi as u8)));
    }
}

proof fn lemma_listed_concat(a: Seq<ClassItem>, c: Seq<ClassItem>, b: u8)
    ensures
        listed(a + c, b) <==> (listed(a, b) || listed(c, b)),
{
    let s = a + c;
    if listed(a, b) {
        let i = choose|i: int| 0 <= i < a.len() && covers(#[trigger] a[i], b);
        assert(s[i] == a[i]);
    }
    if listed(c, b) {
        let i = choose|i: int| 0 <= i < c.len() && covers(#[trigger] c[i], b);
        assert(s[a.len() + i] == c[i]);
    }
    if listed(s, b) {
        let i = choose|i: int| 0 <= i < s.len() && covers(#[trigger] s[i], b);
        if i < a.len() {
            assert(s[i] == a[i]);
        } else {
            assert(s[i] == c[i - a.len()]);
        }
    }
}

proof fn lemma_fold_item(item: ClassItem, b: u8)
    requires
        item matches ClassItem::Range(lo, hi) ==> lo <= hi,
    ensures
        listed(fold_item(item), b) <==> (covers(item, b) || covers(item, case_alt(b))),
{
    let rest = match item {
        ClassItem::Byte(x) => alt_item(x),
        ClassItem::Range(lo, hi) => if lo >= 0x41 && hi <= 0x5a {
            seq![ClassItem::Range(lo | 0x20, hi | 0x20)]
        } else if lo >= 0x61 && hi <= 0x7a {
            seq![ClassItem::Range(lo & !0x20, hi & !0x20)]
        } else {
            alts_in(lo as int, hi as int)
        },
    };
    lemma_listed_concat(seq![item], rest, b);
    assert(seq![item][0] == item);
    assert(listed(seq![item], b) <==> covers(item, b));
    match item {
        ClassItem::Byte(x) => {
            if case_alt(x) != x {
                assert(rest[0] == ClassItem::Byte(case_alt(x)));
            }
        },
        ClassItem::Range(lo, hi) => {
            if lo >= 0x41 && hi <= 0x5a {
                assert(rest[0] == ClassItem::Range(lo | 0x20, hi | 0x20));
                assert(lo | 0x20 == lo + 0x20 && hi | 0x20 == hi + 0x20) by (bit_vector)
                    requires
                        0x41 <= lo <= 0x5a,
                        0x41 <= hi <= 0x5a,
                ;
            } else if lo >= 0x61 && hi <= 0x7a {
                assert(rest[0] == ClassItem::Range(lo & !0x20, hi & !0x20));
                assert(lo & !0x20 == lo - 0x20 && hi & !0x20 == hi - 0x20) by (bit_vector)
                    requires
                        0x61 <= lo <= 0x7a,
                        0x61 <= hi <= 0x7a,
                ;
            } else {
                lemma_alts_listed(lo as int, hi as int, b);
            }
        },
    }
}

/// Folding a class over ASCII case lists exactly the bytes that the class
/// lists in one case or the other, as long as no range runs backwards.
pub proof fn law_fold_class_lists_both_cases(items: Seq<ClassItem>, b: u8)
    requires
        ranges_ordered(items),
    ensures
        listed(fold_items(items), b) <==> (listed(items, b) || listed(items, case_alt(b))),
    decreases items.len(),
{
    if items.len() > 0 {
        let head = items.drop_last();
        let last = items.last();
        assert(ranges_ordered(head)) by {
            assert forall|i: int| 0 <= i < head.len() implies (#[trigger] head[i] matches ClassItem::Range(
                lo,
                hi,
            ) ==> lo <= hi) by {
                assert(head[i] == items[i]);
            }
        }
        law_fold_class_lists_both_cases(head, b);
        assert(items[items.len() - 1] == last);
        lemma_fold_item(last, b);
        lemma_listed_concat(fold_items(head), fold_item(last), b);
        assert(items =~= head + seq![last]);
        lemma_listed_concat(head, seq![last], b);
        lemma_listed_concat(head, seq![last], case_alt(b));
        assert(seq![last][0] == last);
    }
}

} // verus!
