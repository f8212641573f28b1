//! Documents as they are written: the syntax tree of a well-formed JSON
//! text, with its white space, the text that it spells and the value that
//! it denotes.

use crate::grammar::{
    body_end, is_space, word_false, word_null, word_true, CLOSE_BRACE, CLOSE_BRACKET, COLON,
    COMMA, OPEN_BRACE, OPEN_BRACKET, QUOTE, has_word,
};
use crate::number::number_at;
use crate::value::JsonModel;
use vstd::prelude::*;
use vstd::utf8::decode_utf8;

verus! {

/// A value as it is written, without the white space around it.
pub ghost enum Item {
    /// A string, by the bytes between its quotes.
    Str(Seq<u8>),
    /// A number, by the bytes that spell it and the bit pattern of the
    /// binary64 value that they are read as.
    Num(Seq<u8>, u64),
    Boolean(bool),
    Null,
    /// An array, by its elements; where it has none, by the white space
    /// between its brackets.
    Array(Seq<u8>, Seq<Node>),
    /// An object, by its members; where it has none, by the white space
    /// between its braces.
    Object(Seq<u8>, Seq<Member>),
}

/// A value with the white space in front of it and behind it.
pub ghost struct Node {
    pub before: Seq<u8>,
    pub item: Item,
    pub after: Seq<u8>,
}

/// A member of an object: white space, the key between quotes, white
/// space, a colon, and the value with its white space.
pub ghost struct Member {
    pub before: Seq<u8>,
    pub key: Seq<u8>,
    pub between: Seq<u8>,
    pub node: Node,
}

/// Nothing but white space.
pub open spec fn is_blank(w: Seq<u8>) -> bool {
    forall|i: int| 0 <= i < w.len() ==> is_space(#[trigger] w[i])
}

/// The bytes of `body` are the body of a string: normal bytes and
/// recognized escape sequences, and nothing else.
pub open spec fn is_body(body: Seq<u8>) -> bool {
    body_end(body, 0) == body.len()
}

/// The byte at offset `e` of `s`, if there is one, ends a token: it is
/// white space, a comma, or a closing bracket or brace.
pub open spec fn ends_token(s: Seq<u8>, e: int) -> bool {
    0 <= e < s.len() ==> is_space(s[e]) || s[e] == COMMA || s[e] == CLOSE_BRACKET || s[e]
        == CLOSE_BRACE
}

/// The bytes of `lexeme` spell a number: wherever they stand in front of
/// the end of a token, exactly they are read, as the value `bits`.
pub open spec fn is_number(lexeme: Seq<u8>, bits: u64) -> bool {
    forall|s: Seq<u8>, p: int|
        has_word(s, p, lexeme) && ends_token(s, p + lexeme.len()) ==> #[trigger] number_at(s, p)
            == Some((bits, p + lexeme.len()))
}

impl Item {
    /// The text of the item.
    pub open spec fn text(self) -> Seq<u8>
        decreases self, 0int,
    {
        match self {
            Item::Str(body) => seq![QUOTE] + body + seq![QUOTE],
            Item::Num(lexeme, _) => lexeme,
            Item::Boolean(b) => if b {
                word_true()
            } else {
                word_false()
            },
            Item::Null => word_null(),
            Item::Array(gap, elements) => if elements.len() == 0 {
                seq![OPEN_BRACKET] + gap + seq![CLOSE_BRACKET]
            } else {
                seq![OPEN_BRACKET] + Node::list_text(elements, 0)
            },
            Item::Object(gap, members) => if members.len() == 0 {
                seq![OPEN_BRACE] + gap + seq![CLOSE_BRACE]
            } else {
                seq![OPEN_BRACE] + Member::list_text(members, 0)
            },
        }
    }

    /// The value that the item denotes.
    pub open spec fn meaning(self) -> JsonModel
        decreases self, 0int,
    {
        match self {
            Item::Str(body) => JsonModel::Str(decode_utf8(body)),
            Item::Num(_, bits) => JsonModel::Num(bits),
            Item::Boolean(b) => JsonModel::Boolean(b),
            Item::Null => JsonModel::Null,
            Item::Array(_, elements) => JsonModel::Array(
                Node::list_meaning(elements, elements.len() as int),
            ),
            Item::Object(_, members) => JsonModel::Object(
                Member::list_meaning(members, members.len() as int),
            ),
        }
    }

    /// The item is well-formed JSON.
    pub open spec fn valid(self) -> bool
        decreases self, 0int,
    {
        match self {
            Item::Str(body) => is_body(body),
            Item::Num(lexeme, bits) => lexeme.len() > 0 && is_number(lexeme, bits),
            Item::Boolean(_) => true,
            Item::Null => true,
            Item::Array(gap, elements) => {
                &&& is_blank(gap)
                &&& forall|i: int| 0 <= i < elements.len() ==> (#[trigger] elements[i]).valid()
            },
            Item::Object(gap, members) => {
                &&& is_blank(gap)
                &&& forall|i: int| 0 <= i < members.len() ==> (#[trigger] members[i]).valid()
            },
        }
    }
}

impl Node {
    /// The text of the node: white space, the item, white space.
    pub open spec fn text(self) -> Seq<u8>
        decreases self, 1int,
    {
        self.before + self.item.text() + self.after
    }

    /// The value that the node denotes.
    pub open spec fn meaning(self) -> JsonModel
        decreases self, 1int,
    {
        self.item.meaning()
    }

    /// The node is well-formed JSON.
    pub open spec fn valid(self) -> bool
        decreases self, 1int,
    {
        is_blank(self.before) && self.item.valid() && is_blank(self.after)
    }

    /// The text of the elements of an array from the `i`th on, with the
    /// commas between them and the closing bracket.
    pub open spec fn list_text(elements: Seq<Node>, i: int) -> Seq<u8>
        decreases elements, elements.len() - i,
    {
        if 0 <= i < elements.len() - 1 {
            elements[i].text() + seq![COMMA] + Self::list_text(elements, i + 1)
        } else if 0 <= i < elements.len() {
            elements[i].text() + seq![CLOSE_BRACKET]
        } else {
            Seq::empty()
        }
    }

    /// The values of the first `n` elements, in order.
    pub open spec fn list_meaning(elements: Seq<Node>, n: int) -> Seq<JsonModel>
        decreases elements, n,
    {
        if 0 < n <= elements.len() {
            Self::list_meaning(elements, n - 1).push(elements[n - 1].meaning())
        } else {
            Seq::empty()
        }
    }
}

impl Member {
    /// The text of the member.
    pub open spec fn text(self) -> Seq<u8>
        decreases self, 2int,
    {
        self.before + seq![QUOTE] + self.key + seq![QUOTE] + self.between + seq![COLON]
            + self.node.text()
    }

    /// The member is well-formed JSON.
    pub open spec fn valid(self) -> bool
        decreases self, 2int,
    {
        is_blank(self.before) && is_body(self.key) && is_blank(self.between) && self.node.valid()
    }

    /// The text of the members of an object from the `i`th on, with the
    /// commas between them and the closing brace.
    pub open spec fn list_text(members: Seq<Member>, i: int) -> Seq<u8>
        decreases members, members.len() - i,
    {
        if 0 <= i < members.len() - 1 {
            members[i].text() + seq![COMMA] + Self::list_text(members, i + 1)
        } else if 0 <= i < members.len() {
            members[i].text() + seq![CLOSE_BRACE]
        } else {
            Seq::empty()
        }
    }

    /// The mapping that the first `n` members build up, each put in after
    /// those before it.
    pub open spec fn list_meaning(members: Seq<Member>, n: int) -> Map<Seq<char>, JsonModel>
        decreases members, n,
    {
        if 0 < n <= members.len() {
            Self::list_meaning(members, n - 1).insert(
                decode_utf8(members[n - 1].key),
                members[n - 1].node.meaning(),
            )
        } else {
            Map::empty()
        }
    }
}

} // verus!
