//! What holds of the grammar as a whole.

use crate::error::{Context, ErrorKind, Failure, ParseError};
use crate::grammar::{
    alternatives, array, body_end, boolean, document, escape_len, has_word, hex_escape_at,
    is_normal, is_space, items, lemma_body_end_bounds, member_key, member_value, members, null,
    number, object,
    quoted, skip_spaces, value, word_false, word_null, word_true, BACKSLASH, CLOSE_BRACE,
    CLOSE_BRACKET, COLON, COMMA, OPEN_BRACE, OPEN_BRACKET, QUOTE,
};
use crate::number::{is_digit, may_start_number, number_at};
use crate::syntax::{ends_token, is_blank, Item, Member, Node};
use crate::parser::decodes;
use crate::value::{JsonModel, JsonValue};
use vstd::prelude::*;
use vstd::string::StringSliceAdditionalSpecFns;
use vstd::utf8::{decode_utf8, encode_utf8_decode_utf8};

verus! {

/// Where a text of two parts stands, each part stands at its place.
pub proof fn lemma_word_parts(s: Seq<u8>, p: int, a: Seq<u8>, b: Seq<u8>)
    requires
        has_word(s, p, a + b),
    ensures
        has_word(s, p, a),
        has_word(s, p + a.len(), b),
{
    let whole = s.subrange(p, p + (a + b).len());
    assert(whole == a + b);
    assert forall|i: int| 0 <= i < a.len() implies s[p + i] == a[i] by {
        assert(whole[i] == s[p + i]);
        assert((a + b)[i] == a[i]);
    }
    assert forall|i: int| 0 <= i < b.len() implies s[p + a.len() + i] == b[i] by {
        assert(whole[a.len() + i] == s[p + a.len() + i]);
        assert((a + b)[a.len() + i] == b[i]);
    }
    assert(s.subrange(p, p + a.len()) =~= a);
    assert(s.subrange(p + a.len(), p + a.len() + b.len()) =~= b);
}

/// Where a text stands, each of its bytes stands at its place.
pub proof fn lemma_word_byte(s: Seq<u8>, p: int, w: Seq<u8>, i: int)
    requires
        has_word(s, p, w),
        0 <= i < w.len(),
    ensures
        s[p + i] == w[i],
{
    assert(s.subrange(p, p + w.len())[i] == s[p + i]);
}

/// White space that is followed by something else is skipped as a whole.
pub proof fn lemma_skip_blank(s: Seq<u8>, p: int, w: Seq<u8>)
    requires
        has_word(s, p, w),
        is_blank(w),
        !(p + w.len() < s.len() && is_space(s[p + w.len()])),
    ensures
        skip_spaces(s, p) == p + w.len(),
    decreases w.len(),
{
    if w.len() > 0 {
        lemma_word_byte(s, p, w, 0);
        assert(w == seq![w[0]] + w.drop_first());
        lemma_word_parts(s, p, seq![w[0]], w.drop_first());
        assert forall|i: int| 0 <= i < w.drop_first().len() implies is_space(
            #[trigger] w.drop_first()[i],
        ) by {
            assert(w.drop_first()[i] == w[i + 1]);
        }
        lemma_skip_blank(s, p + 1, w.drop_first());
    }
}

/// The body of a string that is followed by a quote is read as a whole.
pub proof fn lemma_body_in_text(s: Seq<u8>, p: int, body: Seq<u8>, i: int)
    requires
        has_word(s, p, body),
        0 <= i <= body.len(),
        body_end(body, i) == body.len(),
        p + body.len() < s.len(),
        s[p + body.len()] == QUOTE,
    ensures
        body_end(s, p + i) == p + body.len(),
    decreases body.len() - i,
{
    if i < body.len() {
        lemma_word_byte(s, p, body, i);
        if is_normal(body[i]) {
            lemma_body_end_bounds(body, i + 1);
            lemma_body_in_text(s, p, body, i + 1);
        } else {
            assert(body[i] == BACKSLASH);
            let n = escape_len(body, i + 1)->0;
            assert(escape_len(body, i + 1) is Some);
            lemma_body_end_bounds(body, i + 1 + n);
            lemma_word_byte(s, p, body, i + 1);
            if n == 5 {
                lemma_word_byte(s, p, body, i + 2);
                lemma_word_byte(s, p, body, i + 3);
                lemma_word_byte(s, p, body, i + 4);
                lemma_word_byte(s, p, body, i + 5);
                assert(hex_escape_at(s, p + i + 1));
            }
            assert(escape_len(s, p + i + 1) == Some(n));
            lemma_body_in_text(s, p, body, i + 1 + n);
        }
    }
}

/// A byte with which a value may begin.
pub open spec fn opens_value(b: u8) -> bool {
    ||| b == QUOTE
    ||| b == OPEN_BRACKET
    ||| b == OPEN_BRACE
    ||| b == 0x74
    ||| b == 0x66
    ||| b == 0x6e
    ||| b == 0x4e
    ||| b == 0x69
    ||| b == 0x49
    ||| b == 0x2b
    ||| b == 0x2d
    ||| b == 0x2e
    ||| is_digit(b)
}

/// The text of a well-formed item is not empty, and begins as a value
/// does.
pub proof fn lemma_item_first(item: Item)
    requires
        item.valid(),
    ensures
        item.text().len() > 0,
        opens_value(item.text()[0]),
{
    match item {
        Item::Num(lexeme, bits) => {
            assert(has_word(lexeme, 0, lexeme)) by {
                assert(lexeme.subrange(0, lexeme.len() as int) =~= lexeme);
            }
            assert(number_at(lexeme, 0) == Some((bits, lexeme.len() as int)));
            assert(lexeme.subrange(0, lexeme.len() as int) =~= lexeme);
        },
        Item::Boolean(b) => {},
        _ => {},
    }
}

/// The byte at offset `e` of `s`, if there is one, is a comma or a closing
/// bracket or brace.
pub open spec fn ends_node(s: Seq<u8>, e: int) -> bool {
    0 <= e < s.len() ==> s[e] == COMMA || s[e] == CLOSE_BRACKET || s[e] == CLOSE_BRACE
}

/// No number starts with a byte that is neither a digit, a sign, a point
/// nor one of the letters `n`, `N`, `i`, `I`.
pub proof fn lemma_no_number(s: Seq<u8>, q: int)
    requires
        0 <= q < s.len(),
        !may_start_number(seq![s[q]] + seq![if q + 1 < s.len() { s[q + 1] } else { 0u8 }]),
    ensures
        number(s, q) is Err,
{
    let tail = s.subrange(q, s.len() as int);
    assert(tail[0] == s[q]);
    if tail.len() > 1 {
        assert(tail[1] == s[q + 1]);
    }
}

/// An item is read where its text stands.
pub proof fn lemma_item(s: Seq<u8>, q: int, item: Item)
    requires
        item.valid(),
        has_word(s, q, item.text()),
        item is Num ==> ends_token(s, q + item.text().len()),
    ensures
        alternatives(s, q) == Some((item.meaning(), q + item.text().len())),
    decreases item, 0int,
{
    lemma_item_first(item);
    lemma_word_byte(s, q, item.text(), 0);
    match item {
        Item::Str(body) => {
            lemma_word_parts(s, q, seq![QUOTE] + body, seq![QUOTE]);
            lemma_word_parts(s, q, seq![QUOTE], body);
            lemma_word_byte(s, q + 1 + body.len(), seq![QUOTE], 0);
            lemma_body_in_text(s, q + 1, body, 0);
        },
        Item::Num(lexeme, bits) => {
            assert(number_at(s, q) == Some((bits, q + lexeme.len())));
            let tail = s.subrange(q, s.len() as int);
            assert(tail[0] == s[q]);
        },
        Item::Boolean(b) => {
            if b {
                lemma_no_number(s, q);
            } else {
                lemma_no_number(s, q);
                if has_word(s, q, word_true()) {
                    lemma_word_byte(s, q, word_true(), 0);
                }
            }
        },
        Item::Null => {
            lemma_word_byte(s, q, word_null(), 1);
            lemma_no_number(s, q);
            if has_word(s, q, word_true()) {
                lemma_word_byte(s, q, word_true(), 0);
            }
            if has_word(s, q, word_false()) {
                lemma_word_byte(s, q, word_false(), 0);
            }
        },
        Item::Array(gap, elements) => {
            lemma_no_number(s, q);
            if has_word(s, q, word_true()) {
                lemma_word_byte(s, q, word_true(), 0);
            }
            if has_word(s, q, word_false()) {
                lemma_word_byte(s, q, word_false(), 0);
            }
            if has_word(s, q, word_null()) {
                lemma_word_byte(s, q, word_null(), 0);
            }
            lemma_array(s, q, gap, elements);
        },
        Item::Object(gap, members) => {
            lemma_no_number(s, q);
            if has_word(s, q, word_true()) {
                lemma_word_byte(s, q, word_true(), 0);
            }
            if has_word(s, q, word_false()) {
                lemma_word_byte(s, q, word_false(), 0);
            }
            if has_word(s, q, word_null()) {
                lemma_word_byte(s, q, word_null(), 0);
            }
            lemma_object(s, q, gap, members);
        },
    }
}

/// A value is read, with the white space around it, where the text of its
/// node stands in front of a comma, a closing bracket or brace, or the end
/// of the text.
pub proof fn lemma_node(s: Seq<u8>, p: int, node: Node)
    requires
        node.valid(),
        has_word(s, p, node.text()),
        ends_node(s, p + node.text().len()),
    ensures
        value(s, p) == Ok::<(JsonModel, int), Failure>(
            (node.meaning(), p + node.text().len()),
        ),
        node.text().len() > 0,
    decreases node, 0int,
{
    let q = p + node.before.len();
    let r = q + node.item.text().len();
    lemma_item_first(node.item);
    lemma_word_parts(s, p, node.before + node.item.text(), node.after);
    lemma_word_parts(s, p, node.before, node.item.text());
    lemma_word_byte(s, q, node.item.text(), 0);
    lemma_skip_blank(s, p, node.before);
    if node.after.len() > 0 {
        lemma_word_byte(s, r, node.after, 0);
    }
    lemma_item(s, q, node.item);
    lemma_skip_blank(s, r, node.after);
}

/// The elements of an array are read, from the `i`th on, where their text
/// stands.
pub proof fn lemma_elements(s: Seq<u8>, p: int, elements: Seq<Node>, i: int)
    requires
        forall|j: int| 0 <= j < elements.len() ==> (#[trigger] elements[j]).valid(),
        0 <= i < elements.len(),
        has_word(s, p, Node::list_text(elements, i)),
    ensures
        items(s, p, Node::list_meaning(elements, i)) == Ok::<(Seq<JsonModel>, int), Failure>(
            (
                Node::list_meaning(elements, elements.len() as int),
                p + Node::list_text(elements, i).len(),
            ),
        ),
    decreases elements, elements.len() - i,
{
    let node = elements[i];
    let r = p + node.text().len();
    assert(Node::list_meaning(elements, i + 1) == Node::list_meaning(elements, i).push(
        node.meaning(),
    ));
    if i < elements.len() - 1 {
        let rest = Node::list_text(elements, i + 1);
        assert(Node::list_text(elements, i) == node.text() + seq![COMMA] + rest);
        lemma_word_parts(s, p, node.text() + seq![COMMA], rest);
        lemma_word_parts(s, p, node.text(), seq![COMMA]);
        lemma_word_byte(s, r, seq![COMMA], 0);
        lemma_node(s, p, node);
        lemma_elements(s, r + 1, elements, i + 1);
    } else {
        assert(Node::list_text(elements, i) == node.text() + seq![CLOSE_BRACKET]);
        lemma_word_parts(s, p, node.text(), seq![CLOSE_BRACKET]);
        lemma_word_byte(s, r, seq![CLOSE_BRACKET], 0);
        lemma_node(s, p, node);
    }
}

/// An array is read where its text stands.
pub proof fn lemma_array(s: Seq<u8>, q: int, gap: Seq<u8>, elements: Seq<Node>)
    requires
        Item::Array(gap, elements).valid(),
        has_word(s, q, Item::Array(gap, elements).text()),
    ensures
        array(s, q) == Ok::<(JsonModel, int), Failure>(
            (
                Item::Array(gap, elements).meaning(),
                q + Item::Array(gap, elements).text().len(),
            ),
        ),
    decreases elements, elements.len() + 1,
{
    let item = Item::Array(gap, elements);
    lemma_word_byte(s, q, item.text(), 0);
    if elements.len() == 0 {
        lemma_word_parts(s, q, seq![OPEN_BRACKET] + gap, seq![CLOSE_BRACKET]);
        lemma_word_parts(s, q, seq![OPEN_BRACKET], gap);
        lemma_word_byte(s, q + 1 + gap.len(), seq![CLOSE_BRACKET], 0);
        lemma_skip_blank(s, q + 1, gap);
    } else {
        let first = elements[0];
        let rest = Node::list_text(elements, 0);
        lemma_word_parts(s, q, seq![OPEN_BRACKET], rest);
        lemma_item_first(first.item);
        if elements.len() > 1 {
            assert(rest == first.text() + seq![COMMA] + Node::list_text(elements, 1));
            lemma_word_parts(s, q + 1, first.text() + seq![COMMA], Node::list_text(elements, 1));
            lemma_word_parts(s, q + 1, first.text(), seq![COMMA]);
        } else {
            assert(rest == first.text() + seq![CLOSE_BRACKET]);
            lemma_word_parts(s, q + 1, first.text(), seq![CLOSE_BRACKET]);
        }
        lemma_word_parts(s, q + 1, first.before + first.item.text(), first.after);
        lemma_word_parts(s, q + 1, first.before, first.item.text());
        lemma_word_byte(s, q + 1 + first.before.len(), first.item.text(), 0);
        lemma_skip_blank(s, q + 1, first.before);
        lemma_elements(s, q + 1, elements, 0);
    }
}

/// The members of an object are read, from the `i`th on, where their text
/// stands.
pub proof fn lemma_members(s: Seq<u8>, p: int, members_: Seq<Member>, i: int)
    requires
        forall|j: int| 0 <= j < members_.len() ==> (#[trigger] members_[j]).valid(),
        0 <= i < members_.len(),
        has_word(s, p, Member::list_text(members_, i)),
    ensures
        members(s, p, Member::list_meaning(members_, i)) == Ok::<
            (Map<Seq<char>, JsonModel>, int),
            Failure,
        >(
            (
                Member::list_meaning(members_, members_.len() as int),
                p + Member::list_text(members_, i).len(),
            ),
        ),
    decreases members_, members_.len() - i,
{
    let member = members_[i];
    let r = p + member.text().len();
    let closer = if i < members_.len() - 1 {
        COMMA
    } else {
        CLOSE_BRACE
    };
    assert(Member::list_meaning(members_, i + 1) == Member::list_meaning(members_, i).insert(
        decode_utf8(member.key),
        member.node.meaning(),
    ));
    if i < members_.len() - 1 {
        let rest = Member::list_text(members_, i + 1);
        assert(Member::list_text(members_, i) == member.text() + seq![COMMA] + rest);
        lemma_word_parts(s, p, member.text() + seq![COMMA], rest);
        lemma_word_parts(s, p, member.text(), seq![COMMA]);
    } else {
        assert(Member::list_text(members_, i) == member.text() + seq![CLOSE_BRACE]);
        lemma_word_parts(s, p, member.text(), seq![CLOSE_BRACE]);
    }
    lemma_word_byte(s, r, seq![closer], 0);
    // The parts of the member, one behind the other.
    let k = p + member.before.len();
    let e = k + 1 + member.key.len();
    let c = e + 1 + member.between.len();
    let t1 = member.before + seq![QUOTE];
    let t2 = t1 + member.key;
    let t3 = t2 + seq![QUOTE];
    let t4 = t3 + member.between;
    let t5 = t4 + seq![COLON];
    lemma_word_parts(s, p, t5, member.node.text());
    lemma_word_parts(s, p, t4, seq![COLON]);
    lemma_word_parts(s, p, t3, member.between);
    lemma_word_parts(s, p, t2, seq![QUOTE]);
    lemma_word_parts(s, p, t1, member.key);
    lemma_word_parts(s, p, member.before, seq![QUOTE]);
    lemma_word_byte(s, k, seq![QUOTE], 0);
    lemma_word_byte(s, e, seq![QUOTE], 0);
    lemma_word_byte(s, c, seq![COLON], 0);
    lemma_skip_blank(s, p, member.before);
    lemma_body_in_text(s, k + 1, member.key, 0);
    assert(s.subrange(k + 1, e) == member.key);
    lemma_skip_blank(s, e + 1, member.between);
    assert(member_key(s, p) == Ok::<(Seq<char>, int), Failure>(
        (decode_utf8(member.key), c),
    ));
    lemma_node(s, c + 1, member.node);
    if i < members_.len() - 1 {
        lemma_members(s, r + 1, members_, i + 1);
    }
    assert(members(s, p, Member::list_meaning(members_, i)) == member_value(
        s,
        c + 1,
        Member::list_meaning(members_, i),
        decode_utf8(member.key),
    ));
}

/// An object is read where its text stands.
pub proof fn lemma_object(s: Seq<u8>, q: int, gap: Seq<u8>, members_: Seq<Member>)
    requires
        Item::Object(gap, members_).valid(),
        has_word(s, q, Item::Object(gap, members_).text()),
    ensures
        object(s, q) == Ok::<(JsonModel, int), Failure>(
            (
                Item::Object(gap, members_).meaning(),
                q + Item::Object(gap, members_).text().len(),
            ),
        ),
    decreases members_, members_.len() + 1,
{
    let item = Item::Object(gap, members_);
    lemma_word_byte(s, q, item.text(), 0);
    if members_.len() == 0 {
        lemma_word_parts(s, q, seq![OPEN_BRACE] + gap, seq![CLOSE_BRACE]);
        lemma_word_parts(s, q, seq![OPEN_BRACE], gap);
        lemma_word_byte(s, q + 1 + gap.len(), seq![CLOSE_BRACE], 0);
        lemma_skip_blank(s, q + 1, gap);
    } else {
        let first = members_[0];
        let rest = Member::list_text(members_, 0);
        lemma_word_parts(s, q, seq![OPEN_BRACE], rest);
        if members_.len() > 1 {
            assert(rest == first.text() + seq![COMMA] + Member::list_text(members_, 1));
            lemma_word_parts(
                s,
                q + 1,
                first.text() + seq![COMMA],
                Member::list_text(members_, 1),
            );
            lemma_word_parts(s, q + 1, first.text(), seq![COMMA]);
        } else {
            assert(rest == first.text() + seq![CLOSE_BRACE]);
            lemma_word_parts(s, q + 1, first.text(), seq![CLOSE_BRACE]);
        }
        let t1 = first.before + seq![QUOTE];
        let t2 = t1 + first.key;
        let t3 = t2 + seq![QUOTE];
        let t4 = t3 + first.between;
        let t5 = t4 + seq![COLON];
        lemma_word_parts(s, q + 1, t5, first.node.text());
        lemma_word_parts(s, q + 1, t4, seq![COLON]);
        lemma_word_parts(s, q + 1, t3, first.between);
        lemma_word_parts(s, q + 1, t2, seq![QUOTE]);
        lemma_word_parts(s, q + 1, t1, first.key);
        lemma_word_parts(s, q + 1, first.before, seq![QUOTE]);
        lemma_word_byte(s, q + 1 + first.before.len(), seq![QUOTE], 0);
        lemma_skip_blank(s, q + 1, first.before);
        lemma_members(s, q + 1, members_, 0);
    }
}

/// A document is read in full where its text stands at the front of `s`,
/// in front of something other than white space.
pub proof fn lemma_document_in_text(s: Seq<u8>, doc: Node)
    requires
        doc.valid(),
        doc.item is Array || doc.item is Object,
        has_word(s, 0, doc.text()),
        !(doc.text().len() < s.len() && is_space(s[doc.text().len() as int])),
    ensures
        document(s) == Ok::<(JsonModel, int), Failure>((doc.meaning(), doc.text().len() as int)),
{
    let q = doc.before.len() as int;
    let r = q + doc.item.text().len();
    lemma_item_first(doc.item);
    lemma_word_parts(s, 0, doc.before + doc.item.text(), doc.after);
    lemma_word_parts(s, 0, doc.before, doc.item.text());
    lemma_word_byte(s, q, doc.item.text(), 0);
    lemma_skip_blank(s, 0, doc.before);
    if doc.after.len() > 0 {
        lemma_word_byte(s, r, doc.after, 0);
    }
    lemma_skip_blank(s, r, doc.after);
    assert(skip_spaces(s, 0) == q);
    assert(skip_spaces(s, r) == doc.text().len());
    match doc.item {
        Item::Array(gap, elements) => {
            lemma_array(s, q, gap, elements);
            assert(s[q] == OPEN_BRACKET);
            assert(array(s, q) == Ok::<(JsonModel, int), Failure>((doc.meaning(), r)));
        },
        Item::Object(gap, members_) => {
            lemma_object(s, q, gap, members_);
            assert(s[q] == OPEN_BRACE);
            assert(object(s, q) == Ok::<(JsonModel, int), Failure>((doc.meaning(), r)));
        },
        _ => {},
    }
}

/// Every well-formed document is read in full, as the value that it
/// denotes: an array or an object written as [`Node`] describes it, with
/// any white space around it, in front of any text that does not begin
/// with white space.
pub proof fn lemma_document_parses(doc: Node, rest: Seq<u8>)
    requires
        doc.valid(),
        doc.item is Array || doc.item is Object,
        rest.len() == 0 || !is_space(rest[0]),
    ensures
        document(doc.text() + rest) == Ok::<(JsonModel, int), Failure>(
            (doc.meaning(), doc.text().len() as int),
        ),
{
    let s = doc.text() + rest;
    assert(s.subrange(0, doc.text().len() as int) =~= doc.text());
    if rest.len() > 0 {
        assert(s[doc.text().len() as int] == rest[0]);
    }
    lemma_document_in_text(s, doc);
}

/// What [`crate::json`] makes of a well-formed document: it succeeds,
/// whatever follows the document, with a tree of the value that the
/// document denotes and with the text behind the document.
pub proof fn lemma_json_reads_documents(
    i: &str,
    r: Result<(&str, JsonValue), ParseError>,
    doc: Node,
    rest: Seq<u8>,
)
    requires
        decodes(i, r),
        i.spec_bytes() == doc.text() + rest,
        doc.valid(),
        doc.item is Array || doc.item is Object,
        rest.len() == 0 || !is_space(rest[0]),
    ensures
        match r {
            Ok((left, v)) => v@ == doc.meaning() && v.wf() && left.spec_bytes() == rest,
            Err(_) => false,
        },
{
    lemma_document_parses(doc, rest);
    let s = doc.text() + rest;
    assert(s.subrange(doc.text().len() as int, s.len() as int) =~= rest);
}

/// A value begins with one of the bytes that open a value.
pub proof fn lemma_value_opens(s: Seq<u8>, q: int)
    ensures
        alternatives(s, q) is Some ==> 0 <= q < s.len() && opens_value(s[q]),
{
    if alternatives(s, q) is Some {
        if quoted(s, q, Context::String) is Ok {
        } else if number(s, q) is Ok {
            let tail = s.subrange(q, s.len() as int);
            assert(tail[0] == s[q]);
        } else if boolean(s, q) is Ok {
            if has_word(s, q, word_true()) {
                lemma_word_byte(s, q, word_true(), 0);
            } else {
                lemma_word_byte(s, q, word_false(), 0);
            }
        } else if null(s, q) is Ok {
            lemma_word_byte(s, q, word_null(), 0);
        }
    }
}

/// A comma in an array must be followed by a value: where a closing
/// bracket follows it, the array is refused at that bracket.
pub proof fn lemma_trailing_comma_in_array(s: Seq<u8>, p: int, acc: Seq<JsonModel>)
    requires
        value(s, p) is Ok,
        ({
            let r = value(s, p)->Ok_0.1;
            let q = skip_spaces(s, r + 1);
            0 <= r < s.len() && s[r] == COMMA && 0 <= q < s.len() && s[q] == CLOSE_BRACKET
        }),
    ensures
        items(s, p, acc) == Err::<(Seq<JsonModel>, int), Failure>(
            Failure::at(
                ErrorKind::NoMatchingAlternative,
                skip_spaces(s, value(s, p)->Ok_0.1 + 1),
                Context::Value,
            ).within(Context::Array),
        ),
{
    let r = value(s, p)->Ok_0.1;
    crate::grammar::lemma_value_end(s, p);
    lemma_value_opens(s, skip_spaces(s, r + 1));
    let v = value(s, p)->Ok_0.0;
    let refused = Failure::at(
        ErrorKind::NoMatchingAlternative,
        skip_spaces(s, r + 1),
        Context::Value,
    );
    assert(value(s, r + 1) == Err::<(JsonModel, int), Failure>(refused));
    assert(items(s, r + 1, acc.push(v)) == Err::<(Seq<JsonModel>, int), Failure>(
        refused.within(Context::Array),
    ));
}

/// A comma in an object must be followed by a member: where a closing
/// brace follows it, the object is refused at that brace.
pub proof fn lemma_trailing_comma_in_object(s: Seq<u8>, p: int, acc: Map<Seq<char>, JsonModel>)
    requires
        member_key(s, p) is Ok,
        value(s, member_key(s, p)->Ok_0.1 + 1) is Ok,
        ({
            let r = value(s, member_key(s, p)->Ok_0.1 + 1)->Ok_0.1;
            let q = skip_spaces(s, r + 1);
            0 <= r < s.len() && s[r] == COMMA && 0 <= q < s.len() && s[q] == CLOSE_BRACE
        }),
    ensures
        members(s, p, acc) == Err::<(Map<Seq<char>, JsonModel>, int), Failure>(
            Failure::at(
                ErrorKind::NoMatchingAlternative,
                skip_spaces(s, value(s, member_key(s, p)->Ok_0.1 + 1)->Ok_0.1 + 1),
                Context::Key,
            ).within(Context::Object),
        ),
{
    let c = member_key(s, p)->Ok_0.1;
    let r = value(s, c + 1)->Ok_0.1;
    crate::grammar::lemma_member_key_bounds(s, p);
    crate::grammar::lemma_value_end(s, c + 1);
    let name = member_key(s, p)->Ok_0.0;
    let v = value(s, c + 1)->Ok_0.0;
    let refused = Failure::at(
        ErrorKind::NoMatchingAlternative,
        skip_spaces(s, r + 1),
        Context::Key,
    ).within(Context::Object);
    assert(member_key(s, r + 1) == Err::<(Seq<char>, int), Failure>(refused));
    assert(members(s, r + 1, acc.insert(name, v)) == Err::<
        (Map<Seq<char>, JsonModel>, int),
        Failure,
    >(refused));
    assert(member_value(s, c + 1, acc, name) == Err::<
        (Map<Seq<char>, JsonModel>, int),
        Failure,
    >(refused));
}

/// A document is an object or an array: a text that opens neither, behind
/// its leading white space, is refused at that offset, and what a document
/// is read as is never a scalar.
pub proof fn lemma_document_is_container(s: Seq<u8>)
    ensures
        ({
            let q = skip_spaces(s, 0);
            !(0 <= q < s.len() && (s[q] == OPEN_BRACE || s[q] == OPEN_BRACKET)) ==> document(s)
                == Err::<(JsonModel, int), Failure>(
                Failure::at(ErrorKind::NoMatchingAlternative, q, Context::Json),
            )
        }),
        match document(s) {
            Ok((v, _)) => v is Array || v is Object,
            Err(_) => true,
        },
{
}

/// Reading the same text again gives the same outcome: equal trees and the
/// same text left, or equal failures. Trees are equal when their models
/// are, so the order in which an object holds its members does not count.
pub proof fn lemma_reparse_agrees(
    i: &str,
    first: Result<(&str, JsonValue), ParseError>,
    second: Result<(&str, JsonValue), ParseError>,
)
    requires
        decodes(i, first),
        decodes(i, second),
    ensures
        match (first, second) {
            (Ok((rest1, v1)), Ok((rest2, v2))) => v1@ == v2@ && rest1@ == rest2@,
            (Err(e1), Err(e2)) => e1@ == e2@,
            _ => false,
        },
{
    match (first, second) {
        (Ok((rest1, _)), Ok((rest2, _))) => {
            encode_utf8_decode_utf8(rest1@);
            encode_utf8_decode_utf8(rest2@);
        },
        _ => {},
    }
}

/// An array keeps the order of the text: its `i`th element is the value of
/// the `i`th element written.
pub proof fn lemma_elements_keep_order(elements: Seq<Node>, n: int)
    requires
        0 <= n <= elements.len(),
    ensures
        Node::list_meaning(elements, n).len() == n,
        forall|i: int|
            0 <= i < n ==> (#[trigger] Node::list_meaning(elements, n)[i])
                == elements[i].meaning(),
    decreases n,
{
    if n > 0 {
        lemma_elements_keep_order(elements, n - 1);
        assert(Node::list_meaning(elements, n) == Node::list_meaning(elements, n - 1).push(
            elements[n - 1].meaning(),
        ));
    }
}

/// Of the members written with one key the last one stays: an object holds
/// under a key the value of the member behind which that key does not come
/// again.
pub proof fn lemma_last_member_stays(members_: Seq<Member>, j: int, n: int)
    requires
        0 <= j < n <= members_.len(),
        forall|k: int|
            j < k < n ==> decode_utf8((#[trigger] members_[k]).key)
                != decode_utf8(members_[j].key),
    ensures
        Member::list_meaning(members_, n).contains_key(decode_utf8(members_[j].key)),
        Member::list_meaning(members_, n)[decode_utf8(members_[j].key)]
            == members_[j].node.meaning(),
    decreases n,
{
    assert(Member::list_meaning(members_, n) == Member::list_meaning(members_, n - 1).insert(
        decode_utf8(members_[n - 1].key),
        members_[n - 1].node.meaning(),
    ));
    if j < n - 1 {
        lemma_last_member_stays(members_, j, n - 1);
    }
}

} // verus!
