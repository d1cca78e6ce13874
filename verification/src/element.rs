//! Elements, their attributes and the read-only views handed to selectors.

use vstd::prelude::*;
use vstd::string::StringExecFns;

verus! {

/// Mathematical value of an attribute: its name and its value.
pub ghost struct AttributeView {
    pub name: Seq<char>,
    pub value: Seq<char>,
}

/// Mathematical value of an element: its name and the attributes it
/// exposes, in source order. Duplicate names are permitted.
pub ghost struct ElementView {
    pub name: Seq<char>,
    pub attrs: Seq<AttributeView>,
}

/// Value of the first attribute called `name`, if there is one.
pub open spec fn first_value(attrs: Seq<AttributeView>, name: Seq<char>) -> Option<Seq<char>>
    decreases attrs.len(),
{
    if attrs.len() == 0 {
        None
    } else if attrs[0].name == name {
        Some(attrs[0].value)
    } else {
        first_value(attrs.drop_first(), name)
    }
}

/// The text that class tokens are read from: the value of the first `class`
/// attribute, empty where there is none.
pub open spec fn class_text(attrs: Seq<AttributeView>) -> Seq<char> {
    match first_value(attrs, "class"@) {
        Some(v) => v,
        None => Seq::empty(),
    }
}

/// The characters that separate class tokens: ASCII whitespace.
pub open spec fn is_class_separator(c: char) -> bool {
    c == ' ' || c == '\t' || c == '\n' || c == '\x0c' || c == '\r'
}

/// Length of the longest prefix of `s` made of separators only
/// (`separators` true) or of other characters only (`separators` false).
pub open spec fn run_len(s: Seq<char>, separators: bool) -> nat
    decreases s.len(),
{
    if s.len() > 0 && is_class_separator(s[0]) == separators {
        1 + run_len(s.drop_first(), separators)
    } else {
        0
    }
}

/// A run ends inside the text, covers only characters of its kind, and is
/// followed by a character of the other kind or by the end of the text.
pub proof fn lemma_run_len(s: Seq<char>, separators: bool)
    ensures
        run_len(s, separators) <= s.len(),
        forall|k: int| 0 <= k < run_len(s, separators) ==> is_class_separator(#[trigger] s[k]) == separators,
        run_len(s, separators) < s.len() ==> is_class_separator(s[run_len(s, separators) as int])
            != separators,
    decreases s.len(),
{
    if s.len() > 0 && is_class_separator(s[0]) == separators {
        let t = s.drop_first();
        lemma_run_len(t, separators);
        assert forall|k: int| 0 <= k < run_len(s, separators) implies is_class_separator(
            #[trigger] s[k],
        ) == separators by {
            if k > 0 {
                assert(s[k] == t[k - 1]);
            }
        }
        if run_len(s, separators) < s.len() {
            assert(s[run_len(s, separators) as int] == t[run_len(t, separators) as int]);
        }
    }
}

/// The class tokens of a text: its maximal runs of characters that are no
/// separators, in order of appearance.
pub open spec fn class_tokens(s: Seq<char>) -> Seq<Seq<char>>
    decreases s.len(),
{
    let start = run_len(s, true) as int;
    let end = start + run_len(s.skip(start), false);
    if start >= s.len() {
        Seq::empty()
    } else {
        proof {
            lemma_run_len(s, true);
            lemma_run_len(s.skip(start), false);
        }
        seq![s.subrange(start, end)] + class_tokens(s.skip(end))
    }
}

/// Whether the characters of `s` from `start` up to, not including, `end`
/// are a maximal run of characters that are no separators.
pub open spec fn is_class_token(s: Seq<char>, start: int, end: int) -> bool {
    &&& 0 <= start < end <= s.len()
    &&& forall|k: int| start <= k < end ==> !is_class_separator(#[trigger] s[k])
    &&& start == 0 || is_class_separator(s[start - 1])
    &&& end == s.len() || is_class_separator(s[end])
}

/// Whether `class` stands in `s` as a maximal run of characters that are no
/// separators.
pub open spec fn has_token(s: Seq<char>, class: Seq<char>) -> bool {
    exists|start: int, end: int| #[trigger]
        is_class_token(s, start, end) && s.subrange(start, end) == class
}

/// The class tokens of a text are exactly its maximal runs of characters
/// that are no separators: no token is empty or holds a separator, and
/// nothing else that stands between separators is left out.
pub proof fn lemma_class_tokens(s: Seq<char>, class: Seq<char>)
    ensures
        class_tokens(s).contains(class) <==> has_token(s, class),
    decreases s.len(),
{
    let a = run_len(s, true) as int;
    lemma_run_len(s, true);
    if a >= s.len() {
        if has_token(s, class) {
            let (i, j) = choose|i: int, j: int| #[trigger]
                is_class_token(s, i, j) && s.subrange(i, j) == class;
            assert(!is_class_separator(s[i]));
        }
    } else {
        let tail = s.skip(a);
        lemma_run_len(tail, false);
        let b = a + run_len(tail, false);
        assert(tail[0] == s[a]);
        assert(b > a);
        let rest = s.skip(b);
        let first = s.subrange(a, b);
        assert forall|k: int| a <= k < b implies !is_class_separator(#[trigger] s[k]) by {
            assert(s[k] == tail[k - a]);
        }
        if b < s.len() {
            assert(s[b] == tail[b - a]);
        }
        assert(is_class_token(s, a, b)) by {
            if a > 0 {
                assert(is_class_separator(s[a - 1]));
            }
        }
        lemma_class_tokens(rest, class);
        let tokens = class_tokens(s);
        assert(tokens =~= seq![first] + class_tokens(rest));
        assert(tokens[0] == first);
        if tokens.contains(class) {
            let k = choose|k: int| 0 <= k < tokens.len() && tokens[k] == class;
            if k == 0 {
                assert(is_class_token(s, a, b) && s.subrange(a, b) == class);
            } else {
                assert(class_tokens(rest)[k - 1] == class);
                assert(class_tokens(rest).contains(class));
                let (i, j) = choose|i: int, j: int| #[trigger]
                    is_class_token(rest, i, j) && rest.subrange(i, j) == class;
                assert(!is_class_separator(rest[i]));
                assert(rest[i] == s[b + i]);
                if i == 0 {
                    assert(false);
                }
                assert(rest[i - 1] == s[b + i - 1]);
                assert forall|k: int| b + i <= k < b + j implies !is_class_separator(
                    #[trigger] s[k],
                ) by {
                    assert(s[k] == rest[k - b]);
                }
                if j < rest.len() {
                    assert(rest[j] == s[b + j]);
                }
                assert(rest.subrange(i, j) =~= s.subrange(b + i, b + j));
                assert(is_class_token(s, b + i, b + j) && s.subrange(b + i, b + j) == class);
            }
        }
        if has_token(s, class) {
            let (i, j) = choose|i: int, j: int| #[trigger]
                is_class_token(s, i, j) && s.subrange(i, j) == class;
            assert(!is_class_separator(s[i]));
            assert(i >= a) by {
                if i < a {
                    assert(is_class_separator(s[i]));
                }
            }
            if i == a {
                if j < b {
                    assert(!is_class_separator(s[j]));
                }
                if j > b {
                    assert(!is_class_separator(s[b]));
                }
                assert(j == b);
                assert(tokens[0] == class);
            } else {
                if i <= b {
                    if i < b {
                        assert(!is_class_separator(s[i - 1]));
                    } else {
                        assert(is_class_separator(s[b]));
                    }
                    assert(false);
                }
                assert forall|k: int| i - b <= k < j - b implies !is_class_separator(
                    #[trigger] rest[k],
                ) by {
                    assert(rest[k] == s[k + b]);
                }
                assert(rest[i - b - 1] == s[i - 1]);
                if j < s.len() {
                    assert(rest[j - b] == s[j]);
                }
                assert(rest.subrange(i - b, j - b) =~= s.subrange(i, j));
                assert(is_class_token(rest, i - b, j - b) && rest.subrange(i - b, j - b) == class);
                assert(class_tokens(rest).contains(class));
                let k = choose|k: int| 0 <= k < class_tokens(rest).len() && class_tokens(rest)[k]
                    == class;
                assert(tokens[k + 1] == class);
            }
        }
    }
}

impl ElementView {
    /// Attribute lookup: the first match wins.
    pub open spec fn attr(self, name: Seq<char>) -> Option<Seq<char>> {
        first_value(self.attrs, name)
    }

    /// The element's class tokens, empty where it has no `class` attribute.
    pub open spec fn classes(self) -> Seq<Seq<char>> {
        class_tokens(class_text(self.attrs))
    }
}

/// An owned attribute.
#[derive(Debug)]
pub struct NormalisedAttribute {
    pub name: String,
    pub value: String,
}

impl View for NormalisedAttribute {
    type V = AttributeView;

    open spec fn view(&self) -> AttributeView {
        AttributeView { name: self.name@, value: self.value@ }
    }
}

impl Clone for NormalisedAttribute {
    fn clone(&self) -> (r: Self)
        ensures
            r@ == self@,
    {
        NormalisedAttribute { name: self.name.clone(), value: self.value.clone() }
    }
}

/// Views of a run of owned attributes, in order.
pub open spec fn attrs_view(attrs: Seq<NormalisedAttribute>) -> Seq<AttributeView> {
    Seq::new(attrs.len(), |i: int| attrs[i]@)
}

/// One attribute as it is written: a space, the name, `="`, the value as it
/// is stored, and `"`.
pub open spec fn attribute_markup(a: AttributeView) -> Seq<char> {
    seq![' '] + a.name + seq!['=', '"'] + a.value + seq!['"']
}

/// A run of attributes as it is written, in order.
pub open spec fn attributes_markup(attrs: Seq<AttributeView>) -> Seq<char>
    decreases attrs.len(),
{
    if attrs.len() == 0 {
        Seq::empty()
    } else {
        attributes_markup(attrs.drop_last()) + attribute_markup(attrs.last())
    }
}

/// An element as it is written in a path: the name followed by the
/// attributes.
pub open spec fn element_text(e: ElementView) -> Seq<char> {
    e.name + attributes_markup(e.attrs)
}

/// An owned element: a name and its attributes in source order.
#[derive(Debug)]
pub struct NormalisedElement {
    pub name: String,
    pub attrs: Vec<NormalisedAttribute>,
}

impl View for NormalisedElement {
    type V = ElementView;

    open spec fn view(&self) -> ElementView {
        ElementView { name: self.name@, attrs: attrs_view(self.attrs@) }
    }
}

impl Clone for NormalisedElement {
    fn clone(&self) -> (r: Self)
        ensures
            r@ == self@,
    {
        let mut attrs: Vec<NormalisedAttribute> = Vec::new();
        let mut i: usize = 0;
        while i < self.attrs.len()
            invariant
                i <= self.attrs.len(),
                attrs.len() == i,
                forall|j: int| 0 <= j < i ==> attrs@[j]@ == self.attrs@[j]@,
            decreases self.attrs.len() - i,
        {
            attrs.push(self.attrs[i].clone());
            i += 1;
        }
        let r = NormalisedElement { name: self.name.clone(), attrs };
        assert(r@.attrs =~= self@.attrs);
        r
    }
}

impl NormalisedElement {
    /// The element as text: its name, then each attribute as ` name="value"`.
    pub fn describe(&self) -> (r: String)
        ensures
            r@ == element_text(self@),
    {
        let mut text = self.name.clone();
        let mut i: usize = 0;
        proof {
            assert(attrs_view(self.attrs@.take(0)) =~= Seq::<AttributeView>::empty());
            assert(text@ + Seq::<char>::empty() =~= text@);
        }
        while i < self.attrs.len()
            invariant
                i <= self.attrs.len(),
                text@ == self.name@ + attributes_markup(attrs_view(self.attrs@.take(i as int))),
            decreases self.attrs.len() - i,
        {
            let attribute = &self.attrs[i];
            proof {
                reveal_strlit(" ");
                reveal_strlit("=\"");
                reveal_strlit("\"");
                let seen = attrs_view(self.attrs@.take(i as int));
                let more = attrs_view(self.attrs@.take(i + 1));
                assert(more.drop_last() =~= seen);
                assert(more.last() == attribute@);
            }
            let ghost before = text@;
            text.append(" ");
            text.append(attribute.name.as_str());
            text.append("=\"");
            text.append(attribute.value.as_str());
            text.append("\"");
            assert(text@ =~= before + attribute_markup(attribute@));
            assert(" "@ =~= seq![' ']);
            i += 1;
        }
        assert(self.attrs@.take(self.attrs@.len() as int) =~= self.attrs@);
        text
    }
}

/// Whether two strings hold the same characters.
pub fn str_eq(a: &str, b: &str) -> (r: bool)
    ensures
        r == (a@ == b@),
{
    let x = a.as_bytes();
    let y = b.as_bytes();
    proof {
        vstd::utf8::encode_utf8_decode_utf8(a@);
        vstd::utf8::encode_utf8_decode_utf8(b@);
    }
    if x.len() != y.len() {
        return false;
    }
    let mut i: usize = 0;
    while i < x.len()
        invariant
            i <= x.len(),
            x.len() == y.len(),
            x@ == vstd::utf8::encode_utf8(a@),
            y@ == vstd::utf8::encode_utf8(b@),
            forall|j: int| 0 <= j < i ==> x@[j] == y@[j],
        decreases x.len() - i,
    {
        if x[i] != y[i] {
            return false;
        }
        i += 1;
    }
    assert(x@ =~= y@);
    true
}

/// If the first of two runs has no attribute called `name`, a lookup in
/// their concatenation is a lookup in the second; otherwise it is the
/// lookup in the first.
pub proof fn lemma_first_value_add(a: Seq<AttributeView>, b: Seq<AttributeView>, name: Seq<char>)
    ensures
        first_value(a + b, name) == match first_value(a, name) {
            Some(v) => Some(v),
            None => first_value(b, name),
        },
    decreases a.len(),
{
    if a.len() == 0 {
        assert(a + b =~= b);
    } else {
        assert((a + b).drop_first() =~= a.drop_first() + b);
        assert((a + b)[0] == a[0]);
        if a[0].name != name {
            lemma_first_value_add(a.drop_first(), b, name);
        }
    }
}

/// The element as downstream consumers see it: its name, and those of its
/// stored attributes that the view exposes, in stored order.
pub open spec fn element_view<E: Element + ?Sized>(e: &E) -> ElementView {
    ElementView { name: e.spec_name(), attrs: attrs_view(e.stored().filter(e.exposure())) }
}

/// A read-only view of one element.
///
/// An implementor stands on a stored run of attributes and decides which of
/// them it exposes; what it exposes is its value as an element.
pub trait Element {
    /// Validity of the view; every constructor of this library establishes it.
    spec fn wf(&self) -> bool;

    /// The element's name.
    spec fn spec_name(&self) -> Seq<char>;

    /// The stored attributes under this view, exposed or not.
    spec fn stored(&self) -> Seq<NormalisedAttribute>;

    /// The test that decides which stored attributes the view exposes.
    spec fn exposure(&self) -> spec_fn(NormalisedAttribute) -> bool;


    fn name(&self) -> (r: &str)
        requires
            self.wf(),
        ensures
            r@ == self.spec_name(),
    ;

    /// Number of stored attributes.
    fn slots(&self) -> (r: usize)
        requires
            self.wf(),
        ensures
            r == self.stored().len(),
    ;

    /// The stored attribute at `index`, or `None` where the view hides it.
    fn slot(&self, index: usize) -> (r: Option<&NormalisedAttribute>)
        requires
            self.wf(),
            index < self.stored().len(),
        ensures
            match r {
                Some(a) => *a == self.stored()[index as int] && (self.exposure())(*a),
                None => !(self.exposure())(self.stored()[index as int]),
            },
    ;

    /// Value of the first exposed attribute called `search`.
    fn attr(&self, search: &str) -> (r: Option<&str>)
        requires
            self.wf(),
        ensures
            match r {
                Some(v) => first_value(attrs_view(self.stored().filter(self.exposure())), search@)
                    == Some(v@),
                None => first_value(attrs_view(self.stored().filter(self.exposure())), search@)
                    is None,
            },
    {
        let n = self.slots();
        let ghost keep = self.exposure();
        let mut i: usize = 0;
        while i < n
            invariant
                self.wf(),
                n == self.stored().len(),
                i <= n,
                keep == self.exposure(),
                first_value(attrs_view(self.stored().take(i as int).filter(keep)), search@) is None,
            decreases n - i,
        {
            let ghost seen = self.stored().take(i as int);
            let ghost here = self.stored()[i as int];
            proof {
                assert(self.stored().take(i + 1) =~= seen.push(here));
                seen.lemma_filter_push(here, keep);
                assert(attrs_view(seen.filter(keep).push(here)) =~= attrs_view(seen.filter(keep))
                    + seq![here@]);
                lemma_first_value_add(attrs_view(seen.filter(keep)), seq![here@], search@);
                reveal_with_fuel(first_value, 3);
                assert(first_value(seq![here@], search@) == if here@.name == search@ {
                    Some(here@.value)
                } else {
                    None
                });
            }
            match self.slot(i) {
                Some(a) => {
                    if str_eq(a.name.as_str(), search) {
                        proof {
                            let rest = self.stored().skip(i + 1);
                            assert(self.stored() =~= self.stored().take(i + 1) + rest);
                            Seq::filter_distributes_over_add(self.stored().take(i + 1), rest, keep);
                            assert(attrs_view(
                                self.stored().take(i + 1).filter(keep) + rest.filter(keep),
                            ) =~= attrs_view(self.stored().take(i + 1).filter(keep)) + attrs_view(
                                rest.filter(keep),
                            ));
                            lemma_first_value_add(
                                attrs_view(self.stored().take(i + 1).filter(keep)),
                                attrs_view(rest.filter(keep)),
                                search@,
                            );
                        }
                        return Some(a.value.as_str());
                    }
                },
                None => {},
            }
            i += 1;
        }
        assert(self.stored().take(n as int) =~= self.stored());
        None
    }

    /// The class tokens of the first exposed `class` attribute, none where
    /// there is no such attribute.
    fn classes(&self) -> (r: Classes<'_>)
        requires
            self.wf(),
        ensures
            r@ == class_tokens(class_text(attrs_view(self.stored().filter(self.exposure())))),
    {
        proof {
            reveal_strlit("");
        }
        match self.attr("class") {
            Some(s) => Classes { s },
            None => Classes { s: "" },
        }
    }
}

/// Whether `c` separates class tokens.
pub fn is_separator(c: char) -> (r: bool)
    ensures
        r == is_class_separator(c),
{
    c == ' ' || c == '\t' || c == '\n' || c == '\x0c' || c == '\r'
}

/// The class tokens of an attribute value that are still to be handed out.
pub struct Classes<'a> {
    pub(crate) s: &'a str,
}

impl<'a> View for Classes<'a> {
    type V = Seq<Seq<char>>;

    closed spec fn view(&self) -> Seq<Seq<char>> {
        class_tokens(self.s@)
    }
}

impl<'a> Classes<'a> {
    /// Hands out the next class token, borrowed from the attribute value.
    pub fn next(&mut self) -> (r: Option<&'a str>)
        ensures
            match r {
                Some(token) => old(self)@.len() > 0 && token@ == old(self)@[0] && final(self)@
                    == old(self)@.drop_first(),
                None => old(self)@.len() == 0 && *final(self) == *old(self),
            },
    {
        let s: &'a str = self.s;
        let n = s.unicode_len();
        let mut start: usize = 0;
        assert(s@.skip(0) =~= s@);
        while start < n && is_separator(s.get_char(start))
            invariant
                n == s@.len(),
                start <= n,
                run_len(s@, true) == start + run_len(s@.skip(start as int), true),
            decreases n - start,
        {
            assert(s@.skip(start as int).drop_first() =~= s@.skip(start + 1));
            start += 1;
        }
        if start == n {
            return None;
        }
        let ghost tail = s@.skip(start as int);
        assert(run_len(s@, true) == start);
        let mut end: usize = start + 1;
        assert(tail.drop_first() =~= s@.skip(end as int));
        while end < n && !is_separator(s.get_char(end))
            invariant
                n == s@.len(),
                start < end <= n,
                tail == s@.skip(start as int),
                run_len(tail, false) == end - start + run_len(s@.skip(end as int), false),
            decreases n - end,
        {
            assert(s@.skip(end as int).drop_first() =~= s@.skip(end + 1));
            end += 1;
        }
        let token = s.substring_char(start, end);
        self.s = s.substring_char(end, n);
        assert(s@.subrange(end as int, n as int) =~= s@.skip(end as int));
        assert((seq![token@] + class_tokens(self.s@)).drop_first() =~= class_tokens(self.s@));
        Some(token)
    }
}

/// The element view that stands directly on an owned element and exposes
/// all of its attributes.
pub struct RawElement<'a> {
    pub element: &'a NormalisedElement,
}

/// The test that exposes every attribute.
pub open spec fn expose_all() -> spec_fn(NormalisedAttribute) -> bool {
    |a: NormalisedAttribute| true
}

/// A filter that accepts everything changes nothing.
pub proof fn lemma_filter_expose_all(attrs: Seq<NormalisedAttribute>)
    ensures
        attrs.filter(expose_all()) == attrs,
    decreases attrs.len(),
{
    reveal(Seq::filter);
    if attrs.len() > 0 {
        lemma_filter_expose_all(attrs.drop_last());
        assert(attrs.drop_last().push(attrs.last()) =~= attrs);
    }
}

impl<'a> Element for RawElement<'a> {
    open spec fn wf(&self) -> bool {
        true
    }

    open spec fn spec_name(&self) -> Seq<char> {
        self.element.name@
    }

    open spec fn stored(&self) -> Seq<NormalisedAttribute> {
        self.element.attrs@
    }

    open spec fn exposure(&self) -> spec_fn(NormalisedAttribute) -> bool {
        expose_all()
    }

    fn name(&self) -> (r: &str) {
        self.element.name.as_str()
    }

    fn slots(&self) -> (r: usize) {
        self.element.attrs.len()
    }

    fn slot(&self, index: usize) -> (r: Option<&NormalisedAttribute>) {
        Some(&self.element.attrs[index])
    }
}

impl<'a> RawElement<'a> {
    /// The element's attributes, in source order.
    pub fn attributes(&self) -> (r: &'a Vec<NormalisedAttribute>)
        ensures
            attrs_view(r@) == element_view(self).attrs,
            r@ == self.element.attrs@,
    {
        proof {
            lemma_filter_expose_all(self.stored());
        }
        &self.element.attrs
    }
}

/// What a raw view shows is the owned element itself.
pub proof fn lemma_raw_view(e: &RawElement<'_>)
    ensures
        element_view(e) == e.element@,
{
    lemma_filter_expose_all(e.stored());
}

/// An owned copy of what a view shows: the name and the exposed attributes.
pub fn to_owned_element<E: Element>(element: &E) -> (r: NormalisedElement)
    requires
        element.wf(),
    ensures
        r@ == element_view(element),
{
    let n = element.slots();
    let ghost keep = element.exposure();
    let mut attrs: Vec<NormalisedAttribute> = Vec::new();
    let mut i: usize = 0;
    assert(element.stored().take(0) =~= Seq::<NormalisedAttribute>::empty());
    proof {
        reveal(Seq::filter);
    }
    assert(attrs_view(attrs@) =~= attrs_view(element.stored().take(0).filter(keep)));
    while i < n
        invariant
            element.wf(),
            keep == element.exposure(),
            n == element.stored().len(),
            i <= n,
            attrs_view(attrs@) == attrs_view(element.stored().take(i as int).filter(keep)),
        decreases n - i,
    {
        let ghost seen = element.stored().take(i as int);
        let ghost here = element.stored()[i as int];
        proof {
            assert(element.stored().take(i + 1) =~= seen.push(here));
            seen.lemma_filter_push(here, keep);
        }
        let ghost before = attrs@;
        match element.slot(i) {
            Some(a) => {
                attrs.push(a.clone());
                assert(attrs_view(attrs@) =~= attrs_view(before).push(here@));
                assert(attrs_view(seen.filter(keep).push(here)) =~= attrs_view(
                    seen.filter(keep),
                ).push(here@));
            },
            None => {},
        }
        i += 1;
    }
    assert(element.stored().take(n as int) =~= element.stored());
    NormalisedElement { name: element.name().to_owned(), attrs }
}

/// Whether a predicate answers as `test` says: it can be called on every
/// name and value, and what it answers is what `test` gives for their
/// characters.
pub open spec fn decides<P: Fn(&str, &str) -> bool>(
    p: P,
    test: spec_fn(Seq<char>, Seq<char>) -> bool,
) -> bool {
    &&& forall|n: &str, v: &str| call_requires(p, (n, v))
    &&& forall|n: &str, v: &str, r: bool| call_ensures(p, (n, v), r) ==> r == test(n@, v@)
}

/// The names and values for which a predicate can answer `true`.
pub open spec fn accepted<P: Fn(&str, &str) -> bool>(p: P) -> spec_fn(Seq<char>, Seq<char>) -> bool {
    |name: Seq<char>, value: Seq<char>|
        exists|n: &str, v: &str| n@ == name && v@ == value && call_ensures(p, (n, v), true)
}

/// A predicate on attributes: it can be called on every name and value, and
/// what it answers goes by their characters alone.
pub open spec fn is_predicate<P: Fn(&str, &str) -> bool>(p: P) -> bool {
    decides(p, accepted(p))
}

/// An element view that exposes only those attributes of the view under it
/// that a predicate accepts. The attributes are not copied.
pub struct FilterAttributes<I, P> {
    pub inner: I,
    pub predicate: P,
    /// What the predicate answers, as a function of name and value.
    pub test: Ghost<spec_fn(Seq<char>, Seq<char>) -> bool>,
}

impl<I: Element, P: Fn(&str, &str) -> bool> Element for FilterAttributes<I, P> {
    open spec fn wf(&self) -> bool {
        self.inner.wf() && decides(self.predicate, self.test@)
    }

    open spec fn spec_name(&self) -> Seq<char> {
        self.inner.spec_name()
    }

    open spec fn stored(&self) -> Seq<NormalisedAttribute> {
        self.inner.stored()
    }

    open spec fn exposure(&self) -> spec_fn(NormalisedAttribute) -> bool {
        |a: NormalisedAttribute| (self.inner.exposure())(a) && (self.test@)(a.name@, a.value@)
    }

    fn name(&self) -> (r: &str) {
        self.inner.name()
    }

    fn slots(&self) -> (r: usize) {
        self.inner.slots()
    }

    fn slot(&self, index: usize) -> (r: Option<&NormalisedAttribute>) {
        match self.inner.slot(index) {
            Some(a) => {
                if (self.predicate)(a.name.as_str(), a.value.as_str()) {
                    Some(a)
                } else {
                    None
                }
            },
            None => None,
        }
    }
}

/// Filtering twice is filtering by both tests at once.
pub proof fn lemma_filter_filter(
    attrs: Seq<NormalisedAttribute>,
    first: spec_fn(NormalisedAttribute) -> bool,
    second: spec_fn(NormalisedAttribute) -> bool,
)
    ensures
        attrs.filter(first).filter(second) == attrs.filter(
            |a: NormalisedAttribute| first(a) && second(a),
        ),
    decreases attrs.len(),
{
    reveal(Seq::filter);
    if attrs.len() > 0 {
        let rest = attrs.drop_last();
        lemma_filter_filter(rest, first, second);
        if first(attrs.last()) {
            rest.filter(first).lemma_filter_push(attrs.last(), second);
        }
    }
}

/// Filtering attributes by a test that goes by their value alone, and then
/// taking their values, is taking their values and then filtering those.
pub proof fn lemma_filter_views(
    attrs: Seq<NormalisedAttribute>,
    keep: spec_fn(NormalisedAttribute) -> bool,
    test: spec_fn(AttributeView) -> bool,
)
    requires
        forall|i: int| 0 <= i < attrs.len() ==> keep(#[trigger] attrs[i]) == test(attrs[i]@),
    ensures
        attrs_view(attrs.filter(keep)) == attrs_view(attrs).filter(test),
    decreases attrs.len(),
{
    reveal(Seq::filter);
    if attrs.len() > 0 {
        let rest = attrs.drop_last();
        assert forall|i: int| 0 <= i < rest.len() implies keep(#[trigger] rest[i]) == test(
            rest[i]@,
        ) by {
            assert(rest[i] == attrs[i]);
        }
        lemma_filter_views(rest, keep, test);
        assert(attrs_view(attrs).drop_last() =~= attrs_view(rest));
        assert(attrs_view(attrs).last() == attrs.last()@);
        assert(keep(attrs.last()) == test(attrs.last()@));
        if keep(attrs.last()) {
            assert(attrs_view(rest.filter(keep).push(attrs.last())) =~= attrs_view(
                rest.filter(keep),
            ).push(attrs.last()@));
        }
    } else {
        assert(attrs_view(attrs.filter(keep)) =~= attrs_view(attrs).filter(test));
    }
}

/// What a filtering view shows: the attributes that the view under it
/// shows and that pass the test of the predicate, in their order.
pub proof fn lemma_filtered_view<I: Element, P: Fn(&str, &str) -> bool>(e: &FilterAttributes<I, P>)
    ensures
        element_view(e).name == element_view(&e.inner).name,
        element_view(e).attrs == element_view(&e.inner).attrs.filter(
            |a: AttributeView| (e.test@)(a.name, a.value),
        ),
{
    let second = |a: NormalisedAttribute| (e.test@)(a.name@, a.value@);
    lemma_filter_filter(e.inner.stored(), e.inner.exposure(), second);
    assert(e.exposure() =~= (|a: NormalisedAttribute| (e.inner.exposure())(a) && second(a)));
    lemma_filter_views(
        e.inner.stored().filter(e.inner.exposure()),
        second,
        |a: AttributeView| (e.test@)(a.name, a.value),
    );
}

impl<'a> RawElement<'a> {
    /// Wraps this view in one that exposes only the attributes that
    /// `predicate` accepts.
    pub fn filter_attributes<F: Fn(&str, &str) -> bool>(self, predicate: F) -> (r: FilterAttributes<
        Self,
        F,
    >)
        requires
            is_predicate(predicate),
        ensures
            r.inner == self,
            r.predicate == predicate,
            r.test@ == accepted(predicate),
            r.wf(),
    {
        FilterAttributes { inner: self, predicate, test: Ghost(accepted(predicate)) }
    }

    /// Wraps this view in one that exposes only the attributes that
    /// `predicate` accepts, where `test` says which those are.
    pub fn filter_attributes_by<F: Fn(&str, &str) -> bool>(
        self,
        predicate: F,
        test: Ghost<spec_fn(Seq<char>, Seq<char>) -> bool>,
    ) -> (r: FilterAttributes<Self, F>)
        requires
            decides(predicate, test@),
        ensures
            r.inner == self,
            r.predicate == predicate,
            r.test@ == test@,
            r.wf(),
    {
        FilterAttributes { inner: self, predicate, test }
    }
}

impl<I: Element, P: Fn(&str, &str) -> bool> FilterAttributes<I, P> {
    /// Wraps this view in one that exposes only the attributes that
    /// `predicate` accepts as well.
    pub fn filter_attributes<F: Fn(&str, &str) -> bool>(self, predicate: F) -> (r: FilterAttributes<
        Self,
        F,
    >)
        requires
            self.wf(),
            is_predicate(predicate),
        ensures
            r.inner == self,
            r.predicate == predicate,
            r.test@ == accepted(predicate),
            r.wf(),
    {
        FilterAttributes { inner: self, predicate, test: Ghost(accepted(predicate)) }
    }

    /// Wraps this view in one that exposes only the attributes that
    /// `predicate` accepts as well, where `test` says which those are.
    pub fn filter_attributes_by<F: Fn(&str, &str) -> bool>(
        self,
        predicate: F,
        test: Ghost<spec_fn(Seq<char>, Seq<char>) -> bool>,
    ) -> (r: FilterAttributes<Self, F>)
        requires
            self.wf(),
            decides(predicate, test@),
        ensures
            r.inner == self,
            r.predicate == predicate,
            r.test@ == test@,
            r.wf(),
    {
        FilterAttributes { inner: self, predicate, test }
    }

    /// The exposed attributes, in source order, to be handed out one by one.
    pub fn attributes(&self) -> (r: FilteredAttributes<'_, Self>)
        requires
            self.wf(),
        ensures
            r.wf(),
            attrs_view(r@) == element_view(self).attrs,
    {
        let r = FilteredAttributes { element: self, slot: 0 };
        assert(self.stored().skip(0) =~= self.stored());
        r
    }
}

/// The exposed attributes of an element view that are still to be handed
/// out.
pub struct FilteredAttributes<'e, E> {
    pub element: &'e E,
    pub slot: usize,
}

impl<'e, E: Element> FilteredAttributes<'e, E> {
    pub open spec fn wf(&self) -> bool {
        self.element.wf() && self.slot <= self.element.stored().len()
    }

    /// The attributes still to come.
    pub open spec fn view(&self) -> Seq<NormalisedAttribute> {
        self.element.stored().skip(self.slot as int).filter(self.element.exposure())
    }

    /// Hands out the next exposed attribute.
    pub fn next(&mut self) -> (r: Option<&'e NormalisedAttribute>)
        requires
            old(self).wf(),
        ensures
            final(self).wf(),
            final(self).element == old(self).element,
            match r {
                Some(a) => old(self)@.len() > 0 && *a == old(self)@[0] && final(self)@ == old(
                    self,
                )@.drop_first(),
                None => old(self)@.len() == 0 && final(self)@.len() == 0,
            },
    {
        let element: &'e E = self.element;
        let n = element.slots();
        let ghost keep = element.exposure();
        while self.slot < n
            invariant
                element.wf(),
                self.element == element,
                old(self).element == element,
                keep == element.exposure(),
                n == element.stored().len(),
                self.slot <= n,
                self@ == old(self)@,
            decreases n - self.slot,
        {
            let ghost rest = element.stored().skip(self.slot as int);
            let ghost here = element.stored()[self.slot as int];
            proof {
                assert(rest =~= seq![here] + element.stored().skip(self.slot + 1));
                Seq::filter_distributes_over_add(
                    seq![here],
                    element.stored().skip(self.slot + 1),
                    keep,
                );
                reveal_with_fuel(Seq::filter, 2);
                assert(seq![here].drop_last() =~= Seq::<NormalisedAttribute>::empty());
            }
            let found = element.slot(self.slot);
            self.slot += 1;
            match found {
                Some(a) => {
                    proof {
                        assert(seq![here].filter(keep) =~= seq![here]);
                        assert((seq![here] + self@).drop_first() =~= self@);
                    }
                    return Some(a);
                },
                None => {
                    assert(seq![here].filter(keep) =~= Seq::<NormalisedAttribute>::empty());
                },
            }
        }
        proof {
            reveal(Seq::filter);
        }
        None
    }
}

} // verus!
