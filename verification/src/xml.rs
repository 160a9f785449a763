//! A model document as a tree of elements with attributes, read with an XML tokenizer.
use vstd::prelude::*;
use quick_xml::events::{BytesStart, Event};
use quick_xml::Reader;
use crate::vecs::str_chars;

verus! {

/// The XML tokenizer over a text.
#[verifier::external_type_specification]
#[verifier::external_body]
#[verifier::reject_recursive_types(R)]
pub struct ExXmlReader<R>(Reader<R>);

/// An element start tag, as the tokenizer hands it out.
#[verifier::external_type_specification]
#[verifier::external_body]
pub struct ExBytesStart<'a>(BytesStart<'a>);

/// An element: its name, its attributes in document order, and its child elements.
#[derive(Debug)]
pub struct XmlElement {
    /// Tag name.
    pub name: String,
    /// Attribute names and raw values, in order.
    pub attrs: Vec<(String, String)>,
    /// Child elements, in order.
    pub children: Vec<XmlElement>,
}

/// An element as a value: its name, its attributes and its child elements.
pub struct XmlTree {
    /// Tag name.
    pub name: Seq<char>,
    /// Attribute names and raw values, in order.
    pub attrs: Seq<(Seq<char>, Seq<char>)>,
    /// Child elements, in order.
    pub children: Seq<XmlTree>,
}

/// The attributes of an element as values.
pub open spec fn attrs_view(a: Seq<(String, String)>) -> Seq<(Seq<char>, Seq<char>)> {
    Seq::new(a.len(), |i: int| (a[i].0@, a[i].1@))
}

/// An element as a value.
pub open spec fn tree_of(e: XmlElement) -> XmlTree
    decreases e,
{
    XmlTree {
        name: e.name@,
        attrs: attrs_view(e.attrs@),
        children: Seq::new(
            e.children@.len(),
            |i: int|
                if 0 <= i < e.children@.len() {
                    proof {
                        assert(decreases_to!(e => e.children));
                        assert(decreases_to!(e.children => e.children@));
                        assert(decreases_to!(e.children@ => e.children@[i]));
                    }
                    tree_of(e.children@[i])
                } else {
                    XmlTree { name: Seq::empty(), attrs: Seq::empty(), children: Seq::empty() }
                },
        ),
    }
}

/// One token of the document, as far as the tree needs it.
pub enum XmlEvent {
    /// A start tag with its name and attributes.
    Start(String, Vec<(String, String)>),
    /// A self-closing tag with its name and attributes.
    Empty(String, Vec<(String, String)>),
    /// An end tag.
    End,
    /// The end of the document.
    Eof,
    /// Text, a comment, a declaration or another token without elements.
    Other,
}

/// Why the tokenizer could not hand out a token, with the underlying message.
pub enum XmlReadError {
    /// The text is not well formed.
    Reader(String),
    /// An attribute of a tag is malformed.
    Attribute(String),
    /// A tag name is not UTF-8.
    NameUtf8(String),
    /// An attribute name is not UTF-8.
    KeyUtf8(String),
    /// An attribute value is not UTF-8.
    ValueUtf8(String),
}

/// The message of a tokenizer failure.
pub open spec fn read_error_text(e: XmlReadError) -> Seq<char> {
    match e {
        XmlReadError::Reader(m) => m@,
        XmlReadError::Attribute(m) => "attribute error: "@ + m@,
        XmlReadError::NameUtf8(m) => "invalid UTF-8 in element name: "@ + m@,
        XmlReadError::KeyUtf8(m) => "invalid UTF-8 in attribute key: "@ + m@,
        XmlReadError::ValueUtf8(m) => "invalid UTF-8 in attribute value: "@ + m@,
    }
}

/// The message of a tokenizer failure (see `read_error_text`).
pub fn read_error_message(e: XmlReadError) -> (r: String)
    ensures
        r@ == read_error_text(e),
{
    match e {
        XmlReadError::Reader(m) => m,
        XmlReadError::Attribute(m) => String::from_str("attribute error: ").concat(m.as_str()),
        XmlReadError::NameUtf8(m) => String::from_str("invalid UTF-8 in element name: ").concat(m.as_str()),
        XmlReadError::KeyUtf8(m) => String::from_str("invalid UTF-8 in attribute key: ").concat(m.as_str()),
        XmlReadError::ValueUtf8(m) => String::from_str("invalid UTF-8 in attribute value: ").concat(m.as_str()),
    }
}

/// A token of the document as a value: a start tag or a self-closing tag with its name
/// and attributes, an end tag, the end of the text, any other token, or the tokenizer's
/// message.
pub enum XmlToken {
    Start(Seq<char>, Seq<(Seq<char>, Seq<char>)>),
    Empty(Seq<char>, Seq<(Seq<char>, Seq<char>)>),
    End,
    Eof,
    Other,
    Error(Seq<char>),
}

/// A token handed out by the tokenizer, as a value.
pub open spec fn token_of(r: Result<XmlEvent, XmlReadError>) -> XmlToken {
    match r {
        Ok(XmlEvent::Start(n, a)) => XmlToken::Start(n@, attrs_view(a@)),
        Ok(XmlEvent::Empty(n, a)) => XmlToken::Empty(n@, attrs_view(a@)),
        Ok(XmlEvent::End) => XmlToken::End,
        Ok(XmlEvent::Eof) => XmlToken::Eof,
        Ok(XmlEvent::Other) => XmlToken::Other,
        Err(e) => XmlToken::Error(read_error_text(e)),
    }
}

/// The tokens `quick_xml` reads from a text (trimming whitespace around text), converted
/// as `next_event` converts them, up to and including the end of the text or the first
/// error.
pub uninterp spec fn xml_tokens(text: Seq<char>) -> Seq<XmlToken>;

/// The tokens a reader has still to hand out, up to and including the end of its text or
/// the first error.
pub uninterp spec fn reader_tokens(reader: Reader<&[u8]>) -> Seq<XmlToken>;

/// `quick_xml::Reader::from_str`, set to trim whitespace around text: a reader that will
/// hand out the tokens of the text, which end with the end of the text or an error.
#[verifier::external_body]
fn xml_reader<'a>(text: &'a str) -> (r: Reader<&'a [u8]>)
    ensures
        reader_tokens(r) == xml_tokens(text@),
        stream_ok(reader_tokens(r)),
{
    let mut reader = Reader::from_str(text);
    reader.config_mut().trim_text(true);
    reader
}

/// The name and raw attributes of a start tag (`BytesStart::name`, `BytesStart::attributes`,
/// each key and value taken as UTF-8); when the name, an attribute, or an attribute's key or
/// value cannot be read, which one failed, with quick-xml's or std's message.
#[verifier::external_body]
fn tag_parts(e: &BytesStart) -> Result<(String, Vec<(String, String)>), XmlReadError> {
    let name = String::from_utf8(e.name().as_ref().to_vec()).map_err(|x| XmlReadError::NameUtf8(x.to_string()))?;
    let mut attrs = Vec::new();
    for a in e.attributes() {
        let a = a.map_err(|x| XmlReadError::Attribute(x.to_string()))?;
        let k = String::from_utf8(a.key.as_ref().to_vec()).map_err(|x| XmlReadError::KeyUtf8(x.to_string()))?;
        let v = String::from_utf8(a.value.to_vec()).map_err(|x| XmlReadError::ValueUtf8(x.to_string()))?;
        attrs.push((k, v));
    }
    Ok((name, attrs))
}

/// `quick_xml::Reader::read_event`: the next token, or the tokenizer's message; after a
/// token that does not end the reading, the reader has the rest of its tokens to hand out.
#[verifier::external_body]
fn next_event(reader: &mut Reader<&[u8]>) -> (r: Result<XmlEvent, XmlReadError>)
    requires
        reader_tokens(*old(reader)).len() > 0,
    ensures
        token_of(r) == reader_tokens(*old(reader))[0],
        !is_terminal(token_of(r)) ==> reader_tokens(*final(reader)) == reader_tokens(*old(reader)).drop_first(),
{
    match reader.read_event() {
        Ok(Event::Start(e)) => tag_parts(&e).map(|(n, a)| XmlEvent::Start(n, a)),
        Ok(Event::Empty(e)) => tag_parts(&e).map(|(n, a)| XmlEvent::Empty(n, a)),
        Ok(Event::End(_)) => Ok(XmlEvent::End),
        Ok(Event::Eof) => Ok(XmlEvent::Eof),
        Ok(_) => Ok(XmlEvent::Other),
        Err(e) => Err(XmlReadError::Reader(e.to_string())),
    }
}

/// Whether two strings have the same characters.
pub fn str_eq(a: &str, b: &str) -> (r: bool)
    ensures
        r == (a@ == b@),
{
    let ca = str_chars(a);
    let cb = str_chars(b);
    if ca.len() != cb.len() {
        return false;
    }
    let mut i: usize = 0;
    while i < ca.len()
        invariant
            ca@ == a@,
            cb@ == b@,
            ca@.len() == cb@.len(),
            i <= ca@.len(),
            forall|k: int| 0 <= k < i ==> ca@[k] == cb@[k],
        decreases ca@.len() - i,
    {
        if ca[i] != cb[i] {
            return false;
        }
        i = i + 1;
    }
    assert(ca@ =~= cb@);
    true
}

/// The value of the last attribute named `key` among `attrs`, if any.
pub open spec fn attr_lookup(attrs: Seq<(String, String)>, key: Seq<char>) -> Option<Seq<char>>
    decreases attrs.len(),
{
    if attrs.len() == 0 {
        None
    } else if attrs.last().0@ == key {
        Some(attrs.last().1@)
    } else {
        attr_lookup(attrs.drop_last(), key)
    }
}

/// The value of the last attribute named `key` among attribute values, if any.
pub open spec fn tree_attr(attrs: Seq<(Seq<char>, Seq<char>)>, key: Seq<char>) -> Option<Seq<char>>
    decreases attrs.len(),
{
    if attrs.len() == 0 {
        None
    } else if attrs.last().0 == key {
        Some(attrs.last().1)
    } else {
        tree_attr(attrs.drop_last(), key)
    }
}

/// Looking up an attribute of an element or of its value gives the same.
pub proof fn lemma_attr_view(a: Seq<(String, String)>, key: Seq<char>)
    ensures
        attr_lookup(a, key) == tree_attr(attrs_view(a), key),
    decreases a.len(),
{
    if a.len() > 0 {
        assert(attrs_view(a).drop_last() =~= attrs_view(a.drop_last()));
        lemma_attr_view(a.drop_last(), key);
    }
}

impl XmlElement {
    /// The value of attribute `key` (the last one when repeated).
    pub fn attr(&self, key: &str) -> (r: Option<&String>)
        ensures
            r matches Some(v) ==> attr_lookup(self.attrs@, key@) == Some(v@),
            r is None ==> attr_lookup(self.attrs@, key@) is None,
    {
        let mut k = self.attrs.len();
        assert(self.attrs@.take(k as int) =~= self.attrs@);
        while k > 0
            invariant
                k <= self.attrs@.len(),
                attr_lookup(self.attrs@, key@) == attr_lookup(self.attrs@.take(k as int), key@),
            decreases k,
        {
            assert(self.attrs@.take(k as int).drop_last() =~= self.attrs@.take(k - 1));
            if str_eq(self.attrs[k - 1].0.as_str(), key) {
                return Some(&self.attrs[k - 1].1);
            }
            k = k - 1;
        }
        None
    }

    /// Whether the element's name is `name`.
    pub fn is(&self, name: &str) -> (r: bool)
        ensures
            r == (self.name@ == name@),
    {
        str_eq(self.name.as_str(), name)
    }
}

/// The elements of a stack of open elements, as values.
pub open spec fn stack_view(s: Seq<XmlElement>) -> Seq<XmlTree> {
    Seq::new(s.len(), |i: int| tree_of(s[i]))
}

/// An element with `e` added as its last child.
pub open spec fn with_child(t: XmlTree, e: XmlTree) -> XmlTree {
    XmlTree { name: t.name, attrs: t.attrs, children: t.children.push(e) }
}

/// Attaching a finished element `e`: it becomes the last child of the innermost open
/// element, or the document's root when none is open.
pub open spec fn attach_tree(stack: Seq<XmlTree>, e: XmlTree) -> (Seq<XmlTree>, Option<XmlTree>) {
    if stack.len() == 0 {
        (stack, Some(e))
    } else {
        (stack.drop_last().push(with_child(stack.last(), e)), None)
    }
}

/// Closing every open element at the end of the text, innermost first, around `e`.
pub open spec fn unwound_tree(stack: Seq<XmlTree>, e: XmlTree) -> XmlTree
    decreases stack.len(),
{
    if stack.len() == 0 {
        e
    } else {
        unwound_tree(stack.drop_last(), with_child(stack.last(), e))
    }
}

/// A token that ends the reading: the end of the text or an error.
pub open spec fn is_terminal(t: XmlToken) -> bool {
    t is Eof || t is Error
}

/// A token stream that ends with its first terminal token.
pub open spec fn stream_ok(ts: Seq<XmlToken>) -> bool {
    &&& ts.len() > 0
    &&& is_terminal(ts.last())
    &&& forall|i: int| 0 <= i < ts.len() - 1 ==> !is_terminal(#[trigger] ts[i])
}

/// One token applied to the open elements: the new open elements, and the outcome once
/// there is one (the root, or a message).
pub open spec fn build_step(stack: Seq<XmlTree>, t: XmlToken) -> (Seq<XmlTree>, Option<Result<XmlTree, Seq<char>>>) {
    match t {
        XmlToken::Start(n, a) => (stack.push(XmlTree { name: n, attrs: a, children: Seq::empty() }), None),
        XmlToken::Empty(n, a) => {
            let (s2, root) = attach_tree(stack, XmlTree { name: n, attrs: a, children: Seq::empty() });
            match root {
                Some(x) => (s2, Some(Ok(x))),
                None => (s2, None),
            }
        },
        XmlToken::End => if stack.len() == 0 {
            (stack, None)
        } else {
            let (s2, root) = attach_tree(stack.drop_last(), stack.last());
            match root {
                Some(x) => (s2, Some(Ok(x))),
                None => (s2, None),
            }
        },
        XmlToken::Eof => if stack.len() == 0 {
            (stack, Some(Err("empty document"@)))
        } else {
            (Seq::empty(), Some(Ok(unwound_tree(stack.drop_last(), stack.last()))))
        },
        XmlToken::Other => (stack, None),
        XmlToken::Error(m) => (stack, Some(Err(m))),
    }
}

/// The open elements and the outcome (once there is one) after the first `k` tokens.
pub open spec fn build_upto(ts: Seq<XmlToken>, k: int) -> (Seq<XmlTree>, Option<Result<XmlTree, Seq<char>>>)
    decreases k,
{
    if k <= 0 {
        (Seq::empty(), None)
    } else {
        let (s, r) = build_upto(ts, k - 1);
        if r is Some {
            (s, r)
        } else {
            build_step(s, ts[k - 1])
        }
    }
}

/// The document a token stream describes: its first element with everything nested in
/// it, or the tokenizer's message, or `empty document` when it holds no element.
pub open spec fn build_tree(ts: Seq<XmlToken>) -> Result<XmlTree, Seq<char>> {
    match build_upto(ts, ts.len() as int).1 {
        Some(r) => r,
        None => Err("empty document"@),
    }
}

/// The outcome of reading a document, as a value.
pub open spec fn parse_view(r: Result<XmlElement, String>) -> Result<XmlTree, Seq<char>> {
    match r {
        Ok(e) => Ok(tree_of(e)),
        Err(m) => Err(m@),
    }
}

/// Adding a child to an element adds its value to the element's children.
proof fn lemma_tree_with_child(a: XmlElement, b: XmlElement, e: XmlElement)
    requires
        a.name == b.name,
        a.attrs == b.attrs,
        a.children@ == b.children@.push(e),
    ensures
        tree_of(a) == with_child(tree_of(b), tree_of(e)),
{
    assert(tree_of(a).children =~= tree_of(b).children.push(tree_of(e)));
}

/// Attach a finished element to the innermost open element, or make it the document's
/// root when none is open.
fn attach(stack: &mut Vec<XmlElement>, e: XmlElement) -> (r: Option<XmlElement>)
    ensures
        stack_view(final(stack)@) == attach_tree(stack_view(old(stack)@), tree_of(e)).0,
        attach_tree(stack_view(old(stack)@), tree_of(e)).1 == (match r {
            Some(x) => Some(tree_of(x)),
            None => None::<XmlTree>,
        }),
{
    match stack.pop() {
        None => Some(e),
        Some(mut top) => {
            let ghost top0 = top;
            top.children.push(e);
            proof {
                lemma_tree_with_child(top, top0, e);
            }
            stack.push(top);
            proof {
                assert(stack_view(stack@) =~= stack_view(old(stack)@).drop_last().push(
                    with_child(stack_view(old(stack)@).last(), tree_of(e)),
                ));
            }
            None
        },
    }
}

/// The outcome of one token, once there is one: the root or a message.
pub open spec fn outcome_view(r: Option<Result<XmlElement, String>>) -> Option<Result<XmlTree, Seq<char>>> {
    match r {
        Some(x) => Some(parse_view(x)),
        None => None,
    }
}

/// Apply one token of the document to the open elements `stack` (see `build_step`): a
/// start tag opens an element, a self-closing tag or an end tag finishes one, the end of
/// the text closes them all; the document's root or a message once there is one.
pub fn apply_event(stack: &mut Vec<XmlElement>, ev: Result<XmlEvent, XmlReadError>) -> (r: Option<Result<XmlElement, String>>)
    ensures
        (stack_view(final(stack)@), outcome_view(r)) == build_step(stack_view(old(stack)@), token_of(ev)),
{
    let ghost s0 = stack@;
    let done: Option<Result<XmlElement, String>> = match ev {
        Err(e) => Some(Err(read_error_message(e))),
        Ok(XmlEvent::Start(name, attrs)) => {
            let e = XmlElement { name, attrs, children: Vec::new() };
            proof {
                assert(tree_of(e).children =~= Seq::<XmlTree>::empty());
            }
            stack.push(e);
            proof {
                assert(stack_view(stack@) =~= stack_view(s0).push(tree_of(e)));
            }
            None
        },
        Ok(XmlEvent::Empty(name, attrs)) => {
            let e = XmlElement { name, attrs, children: Vec::new() };
            proof {
                assert(tree_of(e).children =~= Seq::<XmlTree>::empty());
            }
            match attach(stack, e) {
                Some(root) => Some(Ok(root)),
                None => None,
            }
        },
        Ok(XmlEvent::End) => {
            match stack.pop() {
                Some(e) => {
                    proof {
                        assert(stack_view(stack@) =~= stack_view(s0).drop_last());
                    }
                    match attach(stack, e) {
                        Some(root) => Some(Ok(root)),
                        None => None,
                    }
                },
                None => None,
            }
        },
        Ok(XmlEvent::Eof) => {
            match stack.pop() {
                Some(e) => {
                    proof {
                        assert(stack_view(stack@) =~= stack_view(s0).drop_last());
                    }
                    let mut rest: Vec<XmlElement> = Vec::new();
                    std::mem::swap(&mut rest, stack);
                    Some(Ok(unwind(rest, e)))
                },
                None => Some(Err("empty document".to_owned())),
            }
        },
        Ok(XmlEvent::Other) => None,
    };
    done
}

/// Tokens handed out by the tokenizer, as values.
pub open spec fn tokens_of(events: Seq<Result<XmlEvent, XmlReadError>>) -> Seq<XmlToken> {
    Seq::new(events.len(), |i: int| token_of(events[i]))
}

/// The document that a token sequence describes (see `build_tree`): its first element with
/// everything nested in it, the first message, or `empty document`.
#[verifier::loop_isolation(false)]
pub fn build_document(events: Vec<Result<XmlEvent, XmlReadError>>) -> (r: Result<XmlElement, String>)
    ensures
        parse_view(r) == build_tree(tokens_of(events@)),
{
    let ghost ts = tokens_of(events@);
    let mut stack: Vec<XmlElement> = Vec::new();
    let ghost all = events@;
    let mut rest = events;
    let n = rest.len();
    let mut k: usize = 0;
    while k < n
        invariant
            ts == tokens_of(all),
            n == all.len(),
            k <= n,
            rest@ == all.skip(k as int),
            build_upto(ts, k as int) == (stack_view(stack@), None::<Result<XmlTree, Seq<char>>>),
        decreases n - k,
    {
        let ev = rest.remove(0);
        proof {
            assert(all.skip(k as int)[0] == all[k as int]);
            assert(rest@ =~= all.skip(k + 1));
        }
        let ghost s0 = stack@;
        proof {
            assert(ev == all[k as int]);
            assert(token_of(ev) == ts[k as int]);
        }
        let done = apply_event(&mut stack, ev);
        proof {
            assert(build_upto(ts, k + 1) == build_step(stack_view(s0), ts[k as int]));
        }
        k = k + 1;
        match done {
            Some(res) => {
                proof {
                    assert(outcome_view(Some(res)) == Some(parse_view(res)));
                    assert(build_upto(ts, k as int).1 == Some(parse_view(res)));
                    assert(ts.len() == n);
                    lemma_build_done(ts, k as int);
                }
                return res;
            },
            None => {},
        }
    }
    Err("empty document".to_owned())
}

/// Read the first element of an XML text, with its attributes and nested elements; the
/// tokenizer's message when the text is not well formed, and a message when it holds no
/// element.
pub fn parse_xml(text: &str) -> (r: Result<XmlElement, String>)
    ensures
        parse_view(r) == build_tree(xml_tokens(text@)),
{
    let mut reader = xml_reader(text);
    let ghost ts = xml_tokens(text@);
    let mut stack: Vec<XmlElement> = Vec::new();
    let ghost mut k: int = 0;
    loop
        invariant
            ts == xml_tokens(text@),
            stream_ok(ts),
            0 <= k < ts.len(),
            reader_tokens(reader) == ts.skip(k),
            build_upto(ts, k) == (stack_view(stack@), None::<Result<XmlTree, Seq<char>>>),
        decreases ts.len() - k,
    {
        let ghost s0 = stack@;
        let ev = next_event(&mut reader);
        proof {
            assert(ts.skip(k)[0] == ts[k]);
            assert(token_of(ev) == ts[k]);
        }
        let done = apply_event(&mut stack, ev);
        proof {
            let step = build_step(stack_view(s0), ts[k]);
            assert(build_upto(ts, k + 1) == step);
            match &done {
                Some(res) => {
                    assert(step.1 == Some(parse_view(*res)));
                },
                None => {
                    assert(step == (stack_view(stack@), None::<Result<XmlTree, Seq<char>>>));
                    assert(!is_terminal(ts[k]));
                    assert(ts.skip(k).drop_first() =~= ts.skip(k + 1));
                },
            }
            k = k + 1;
        }
        match done {
            Some(res) => {
                proof {
                    lemma_build_done(ts, k);
                }
                return res;
            },
            None => {},
        }
    }
}

/// Once the tokens read so far give an outcome, the whole stream gives the same one.
proof fn lemma_build_done(ts: Seq<XmlToken>, k: int)
    requires
        0 < k <= ts.len(),
        build_upto(ts, k).1 is Some,
    ensures
        build_tree(ts) == build_upto(ts, k).1->0,
    decreases ts.len() - k,
{
    if k < ts.len() {
        assert(build_upto(ts, k + 1) == build_upto(ts, k));
        lemma_build_done(ts, k + 1);
    }
}

/// Close every open element at the end of the text: `e` goes into its parent, and so on
/// up to the root.
fn unwind(stack: Vec<XmlElement>, e: XmlElement) -> (r: XmlElement)
    ensures
        tree_of(r) == unwound_tree(stack_view(stack@), tree_of(e)),
    decreases stack@.len(),
{
    let ghost s0 = stack@;
    let mut stack = stack;
    match stack.pop() {
        None => e,
        Some(mut top) => {
            let ghost top0 = top;
            top.children.push(e);
            proof {
                lemma_tree_with_child(top, top0, e);
                assert(stack_view(stack@) =~= stack_view(s0).drop_last());
            }
            unwind(stack, top)
        },
    }
}

} // verus!
