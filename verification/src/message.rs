//! Example composite types with hand-derived codecs.
//!
//! Each type follows the derivation rules for composites: a product (struct)
//! encodes as the concatenation of its field encodings in declaration order,
//! and a sum (enum) as one tag byte equal to the alternative's declaration
//! index followed by that alternative's field encodings.  Decoding walks the
//! same order, advancing by the length of the re-encoding of each decoded
//! field, and aborts on the first failure.

use vstd::prelude::*;
use vstd::slice::*;
use crate::error::OrbyteError;
use crate::serialize::Serialize;
use crate::deserialize::Deserialize;

verus! {

/// The abstract value of a [`FileData`].
#[verifier::ext_equal]
pub struct FileDataV {
    pub data: Seq<u8>,
    pub name: Seq<char>,
}

/// A named binary attachment: a product of a byte sequence and a text field.
#[derive(Clone, PartialEq, Debug)]
pub struct FileData {
    pub data: Vec<u8>,
    pub name: String,
}

impl DeepView for FileData {
    type V = FileDataV;

    open spec fn deep_view(&self) -> FileDataV {
        FileDataV { data: self.data.deep_view(), name: self.name.deep_view() }
    }
}

impl Serialize for FileData {
    open spec fn spec_wf(v: FileDataV) -> bool {
        <Vec<u8> as Serialize>::spec_wf(v.data) && <String as Serialize>::spec_wf(v.name)
    }

    open spec fn spec_enc(v: FileDataV) -> Seq<u8> {
        <Vec<u8> as Serialize>::spec_enc(v.data) + <String as Serialize>::spec_enc(v.name)
    }

    fn serialize(&self) -> (r: Vec<u8>) {
        let mut r = self.data.serialize();
        let mut b1 = self.name.serialize();
        r.append(&mut b1);
        proof {
            assert(r@ =~= Self::spec_enc(self.deep_view()));
        }
        r
    }
}

impl Deserialize for FileData {
    open spec fn spec_deser(b: Seq<u8>) -> Result<FileDataV, OrbyteError> {
        match <Vec<u8> as Deserialize>::spec_deser(b) {
            Err(e) => Err(e),
            Ok(data) => {
                let b1 = b.skip(<Vec<u8> as Serialize>::spec_enc(data).len() as int);
                match <String as Deserialize>::spec_deser(b1) {
                    Err(e) => Err(e),
                    Ok(name) => Ok(FileDataV { data, name }),
                }
            },
        }
    }

    fn deserialize(bytes: &[u8]) -> (r: Result<Self, OrbyteError>) {
        let data = match <Vec<u8> as Deserialize>::deserialize(bytes) {
            Ok(v) => v,
            Err(e) => {
                return Err(e);
            },
        };
        proof {
            <Vec<u8> as Deserialize>::lemma_deser_canonical(bytes@);
        }
        let l0 = data.serialize().len();
        let rest1 = slice_subrange(bytes, l0, bytes.len());
        let name = match <String as Deserialize>::deserialize(rest1) {
            Ok(v) => v,
            Err(e) => {
                return Err(e);
            },
        };
        Ok(FileData { data, name })
    }

    proof fn lemma_deser_canonical(b: Seq<u8>) {
        <Vec<u8> as Deserialize>::lemma_deser_canonical(b);
        if let Ok(data) = <Vec<u8> as Deserialize>::spec_deser(b) {
            let l0 = <Vec<u8> as Serialize>::spec_enc(data).len() as int;
            let b1 = b.skip(l0);
            <String as Deserialize>::lemma_deser_canonical(b1);
            if let Ok(name) = <String as Deserialize>::spec_deser(b1) {
                let l1 = <String as Serialize>::spec_enc(name).len() as int;
                let v = FileDataV { data, name };
                assert(Self::spec_enc(v) =~= b.take(l0 + l1));
            }
        }
    }

    open spec fn spec_unambiguous(v: FileDataV, rest: Seq<u8>) -> bool {
        true
    }

    proof fn lemma_round_trip(v: FileDataV, rest: Seq<u8>) {
        let e0 = <Vec<u8> as Serialize>::spec_enc(v.data);
        let e1 = <String as Serialize>::spec_enc(v.name);
        let b = Self::spec_enc(v) + rest;
        assert(b =~= e0 + (e1 + rest));
        <Vec<u8> as Deserialize>::lemma_round_trip(v.data, e1 + rest);
        assert(b.skip(e0.len() as int) =~= e1 + rest);
        <String as Deserialize>::lemma_round_trip(v.name, rest);
        assert(FileDataV { data: v.data, name: v.name } =~= v);
    }
}

/// The abstract value of a [`Content`].
#[verifier::ext_equal]
pub enum ContentV {
    Text(Seq<char>),
    File(FileDataV),
    Signal(u8),
}

/// A sum of three alternatives, with discriminants 0, 1 and 2 given by
/// declaration order.
#[derive(Clone, PartialEq, Debug)]
pub enum Content {
    Text(String),
    File(FileData),
    Signal(u8),
}

impl DeepView for Content {
    type V = ContentV;

    open spec fn deep_view(&self) -> ContentV {
        match self {
            Content::Text(s) => ContentV::Text(s.deep_view()),
            Content::File(f) => ContentV::File(f.deep_view()),
            Content::Signal(x) => ContentV::Signal(*x),
        }
    }
}

impl Serialize for Content {
    open spec fn spec_wf(v: ContentV) -> bool {
        match v {
            ContentV::Text(s) => <String as Serialize>::spec_wf(s),
            ContentV::File(f) => <FileData as Serialize>::spec_wf(f),
            ContentV::Signal(x) => true,
        }
    }

    open spec fn spec_enc(v: ContentV) -> Seq<u8> {
        match v {
            ContentV::Text(s) => seq![0u8] + <String as Serialize>::spec_enc(s),
            ContentV::File(f) => seq![1u8] + <FileData as Serialize>::spec_enc(f),
            ContentV::Signal(x) => seq![2u8] + <u8 as Serialize>::spec_enc(x),
        }
    }

    fn serialize(&self) -> (r: Vec<u8>) {
        let mut r: Vec<u8> = Vec::new();
        match self {
            Content::Text(s) => {
                r.push(0);
                let mut b = s.serialize();
                r.append(&mut b);
            },
            Content::File(f) => {
                r.push(1);
                let mut b = f.serialize();
                r.append(&mut b);
            },
            Content::Signal(x) => {
                r.push(2);
                let mut b = x.serialize();
                r.append(&mut b);
            },
        }
        proof {
            assert(r@ =~= Self::spec_enc(self.deep_view()));
        }
        r
    }
}

impl Deserialize for Content {
    open spec fn spec_deser(b: Seq<u8>) -> Result<ContentV, OrbyteError> {
        if b.len() < 1 {
            Err(OrbyteError::InvalidLength)
        } else if b[0] == 0 {
            match <String as Deserialize>::spec_deser(b.skip(1)) {
                Ok(s) => Ok(ContentV::Text(s)),
                Err(e) => Err(e),
            }
        } else if b[0] == 1 {
            match <FileData as Deserialize>::spec_deser(b.skip(1)) {
                Ok(f) => Ok(ContentV::File(f)),
                Err(e) => Err(e),
            }
        } else if b[0] == 2 {
            match <u8 as Deserialize>::spec_deser(b.skip(1)) {
                Ok(x) => Ok(ContentV::Signal(x)),
                Err(e) => Err(e),
            }
        } else {
            Err(OrbyteError::UnrecognizedTag)
        }
    }

    fn deserialize(bytes: &[u8]) -> (r: Result<Self, OrbyteError>) {
        if bytes.len() < 1 {
            return Err(OrbyteError::InvalidLength);
        }
        let tag = *slice_index_get(bytes, 0);
        let rest = slice_subrange(bytes, 1, bytes.len());
        if tag == 0 {
            match <String as Deserialize>::deserialize(rest) {
                Ok(s) => Ok(Content::Text(s)),
                Err(e) => Err(e),
            }
        } else if tag == 1 {
            match <FileData as Deserialize>::deserialize(rest) {
                Ok(f) => Ok(Content::File(f)),
                Err(e) => Err(e),
            }
        } else if tag == 2 {
            match <u8 as Deserialize>::deserialize(rest) {
                Ok(x) => Ok(Content::Signal(x)),
                Err(e) => Err(e),
            }
        } else {
            Err(OrbyteError::UnrecognizedTag)
        }
    }

    proof fn lemma_deser_canonical(b: Seq<u8>) {
        if b.len() >= 1 {
            let b1 = b.skip(1);
            if b[0] == 0 {
                <String as Deserialize>::lemma_deser_canonical(b1);
                if let Ok(s) = <String as Deserialize>::spec_deser(b1) {
                    let l = <String as Serialize>::spec_enc(s).len() as int;
                    assert(Self::spec_enc(ContentV::Text(s)) =~= b.take(1 + l));
                }
            } else if b[0] == 1 {
                <FileData as Deserialize>::lemma_deser_canonical(b1);
                if let Ok(f) = <FileData as Deserialize>::spec_deser(b1) {
                    let l = <FileData as Serialize>::spec_enc(f).len() as int;
                    assert(Self::spec_enc(ContentV::File(f)) =~= b.take(1 + l));
                }
            } else if b[0] == 2 {
                <u8 as Deserialize>::lemma_deser_canonical(b1);
                if let Ok(x) = <u8 as Deserialize>::spec_deser(b1) {
                    assert(Self::spec_enc(ContentV::Signal(x)) =~= b.take(2));
                }
            }
        }
    }

    open spec fn spec_unambiguous(v: ContentV, rest: Seq<u8>) -> bool {
        true
    }

    proof fn lemma_round_trip(v: ContentV, rest: Seq<u8>) {
        let b = Self::spec_enc(v) + rest;
        match v {
            ContentV::Text(s) => {
                let e = <String as Serialize>::spec_enc(s);
                assert(b[0] == 0);
                assert(b.skip(1) =~= e + rest);
                <String as Deserialize>::lemma_round_trip(s, rest);
            },
            ContentV::File(f) => {
                let e = <FileData as Serialize>::spec_enc(f);
                assert(b[0] == 1);
                assert(b.skip(1) =~= e + rest);
                <FileData as Deserialize>::lemma_round_trip(f, rest);
            },
            ContentV::Signal(x) => {
                let e = <u8 as Serialize>::spec_enc(x);
                assert(b[0] == 2);
                assert(b.skip(1) =~= e + rest);
                <u8 as Deserialize>::lemma_round_trip(x, rest);
            },
        }
    }
}

/// A sum of three unit alternatives: each encodes as its tag byte alone.
#[derive(Clone, Copy, PartialEq, Eq, Structural, Debug)]
pub enum Content3 {
    Text,
    File,
    Signal,
}

impl DeepView for Content3 {
    type V = Content3;

    open spec fn deep_view(&self) -> Content3 {
        *self
    }
}

impl Serialize for Content3 {
    open spec fn spec_wf(v: Content3) -> bool {
        true
    }

    open spec fn spec_enc(v: Content3) -> Seq<u8> {
        match v {
            Content3::Text => seq![0u8],
            Content3::File => seq![1u8],
            Content3::Signal => seq![2u8],
        }
    }

    fn serialize(&self) -> (r: Vec<u8>) {
        let mut r: Vec<u8> = Vec::new();
        match self {
            Content3::Text => {
                r.push(0);
            },
            Content3::File => {
                r.push(1);
            },
            Content3::Signal => {
                r.push(2);
            },
        }
        proof {
            assert(r@ =~= Self::spec_enc(self.deep_view()));
        }
        r
    }
}

impl Deserialize for Content3 {
    open spec fn spec_deser(b: Seq<u8>) -> Result<Content3, OrbyteError> {
        if b.len() < 1 {
            Err(OrbyteError::InvalidLength)
        } else if b[0] == 0 {
            Ok(Content3::Text)
        } else if b[0] == 1 {
            Ok(Content3::File)
        } else if b[0] == 2 {
            Ok(Content3::Signal)
        } else {
            Err(OrbyteError::UnrecognizedTag)
        }
    }

    fn deserialize(bytes: &[u8]) -> (r: Result<Self, OrbyteError>) {
        if bytes.len() < 1 {
            return Err(OrbyteError::InvalidLength);
        }
        let tag = *slice_index_get(bytes, 0);
        if tag == 0 {
            Ok(Content3::Text)
        } else if tag == 1 {
            Ok(Content3::File)
        } else if tag == 2 {
            Ok(Content3::Signal)
        } else {
            Err(OrbyteError::UnrecognizedTag)
        }
    }

    proof fn lemma_deser_canonical(b: Seq<u8>) {
        if b.len() >= 1 && b[0] < 3 {
            if let Ok(v) = Self::spec_deser(b) {
                assert(Self::spec_enc(v) =~= b.take(1));
            }
        }
    }

    open spec fn spec_unambiguous(v: Content3, rest: Seq<u8>) -> bool {
        true
    }

    proof fn lemma_round_trip(v: Content3, rest: Seq<u8>) {
        let b = Self::spec_enc(v) + rest;
        assert(b[0] == Self::spec_enc(v)[0]);
    }
}

/// The abstract value of a [`ChatMessage`].
#[verifier::ext_equal]
pub struct ChatMessageV {
    pub sender: Seq<char>,
    pub content: Option<ContentV>,
    pub timestamp: Option<i32>,
}

/// A product of three fields, encoded in declaration order.  The two optional
/// fields carry no presence marker, so a message whose `content` is absent
/// while `timestamp` is present is genuinely ambiguous on the wire; the
/// round-trip law states exactly the values that decode back unambiguously.
#[derive(Clone, PartialEq, Debug)]
pub struct ChatMessage {
    pub sender: String,
    pub content: Option<Content>,
    pub timestamp: Option<i32>,
}

impl DeepView for ChatMessage {
    type V = ChatMessageV;

    open spec fn deep_view(&self) -> ChatMessageV {
        ChatMessageV {
            sender: self.sender.deep_view(),
            content: self.content.deep_view(),
            timestamp: self.timestamp.deep_view(),
        }
    }
}

impl Serialize for ChatMessage {
    open spec fn spec_wf(v: ChatMessageV) -> bool {
        <String as Serialize>::spec_wf(v.sender) && <Option<Content> as Serialize>::spec_wf(
            v.content,
        ) && <Option<i32> as Serialize>::spec_wf(v.timestamp)
    }

    open spec fn spec_enc(v: ChatMessageV) -> Seq<u8> {
        <String as Serialize>::spec_enc(v.sender) + <Option<Content> as Serialize>::spec_enc(
            v.content,
        ) + <Option<i32> as Serialize>::spec_enc(v.timestamp)
    }

    fn serialize(&self) -> (r: Vec<u8>) {
        let mut r = self.sender.serialize();
        let mut b1 = self.content.serialize();
        let mut b2 = self.timestamp.serialize();
        r.append(&mut b1);
        r.append(&mut b2);
        proof {
            assert(r@ =~= Self::spec_enc(self.deep_view()));
        }
        r
    }
}

impl Deserialize for ChatMessage {
    open spec fn spec_deser(b: Seq<u8>) -> Result<ChatMessageV, OrbyteError> {
        match <String as Deserialize>::spec_deser(b) {
            Err(e) => Err(e),
            Ok(sender) => {
                let b1 = b.skip(<String as Serialize>::spec_enc(sender).len() as int);
                match <Option<Content> as Deserialize>::spec_deser(b1) {
                    Err(e) => Err(e),
                    Ok(content) => {
                        let b2 = b1.skip(
                            <Option<Content> as Serialize>::spec_enc(content).len() as int,
                        );
                        match <Option<i32> as Deserialize>::spec_deser(b2) {
                            Err(e) => Err(e),
                            Ok(timestamp) => Ok(ChatMessageV { sender, content, timestamp }),
                        }
                    },
                }
            },
        }
    }

    fn deserialize(bytes: &[u8]) -> (r: Result<Self, OrbyteError>) {
        let sender = match <String as Deserialize>::deserialize(bytes) {
            Ok(v) => v,
            Err(e) => {
                return Err(e);
            },
        };
        proof {
            <String as Deserialize>::lemma_deser_canonical(bytes@);
        }
        let l0 = sender.serialize().len();
        let rest1 = slice_subrange(bytes, l0, bytes.len());
        let content = match <Option<Content> as Deserialize>::deserialize(rest1) {
            Ok(v) => v,
            Err(e) => {
                return Err(e);
            },
        };
        proof {
            <Option<Content> as Deserialize>::lemma_deser_canonical(bytes@.skip(l0 as int));
        }
        let l1 = content.serialize().len();
        let rest2 = slice_subrange(rest1, l1, rest1.len());
        proof {
            assert(rest2@ =~= bytes@.skip(l0 as int).skip(l1 as int));
        }
        let timestamp = match <Option<i32> as Deserialize>::deserialize(rest2) {
            Ok(v) => v,
            Err(e) => {
                return Err(e);
            },
        };
        Ok(ChatMessage { sender, content, timestamp })
    }

    proof fn lemma_deser_canonical(b: Seq<u8>) {
        <String as Deserialize>::lemma_deser_canonical(b);
        if let Ok(sender) = <String as Deserialize>::spec_deser(b) {
            let l0 = <String as Serialize>::spec_enc(sender).len() as int;
            let b1 = b.skip(l0);
            <Option<Content> as Deserialize>::lemma_deser_canonical(b1);
            if let Ok(content) = <Option<Content> as Deserialize>::spec_deser(b1) {
                let l1 = <Option<Content> as Serialize>::spec_enc(content).len() as int;
                let b2 = b1.skip(l1);
                <Option<i32> as Deserialize>::lemma_deser_canonical(b2);
                if let Ok(timestamp) = <Option<i32> as Deserialize>::spec_deser(b2) {
                    let l2 = <Option<i32> as Serialize>::spec_enc(timestamp).len() as int;
                    let v = ChatMessageV { sender, content, timestamp };
                    assert(Self::spec_enc(v) =~= b.take(l0 + l1 + l2));
                }
            }
        }
    }

    open spec fn spec_unambiguous(v: ChatMessageV, rest: Seq<u8>) -> bool {
        <Option<Content> as Deserialize>::spec_unambiguous(
            v.content,
            <Option<i32> as Serialize>::spec_enc(v.timestamp) + rest,
        ) && <Option<i32> as Deserialize>::spec_unambiguous(v.timestamp, rest)
    }

    proof fn lemma_round_trip(v: ChatMessageV, rest: Seq<u8>) {
        let e0 = <String as Serialize>::spec_enc(v.sender);
        let e1 = <Option<Content> as Serialize>::spec_enc(v.content);
        let e2 = <Option<i32> as Serialize>::spec_enc(v.timestamp);
        let b = Self::spec_enc(v) + rest;
        assert(b =~= e0 + (e1 + (e2 + rest)));
        <String as Deserialize>::lemma_round_trip(v.sender, e1 + (e2 + rest));
        assert(b.skip(e0.len() as int) =~= e1 + (e2 + rest));
        <Option<Content> as Deserialize>::lemma_round_trip(v.content, e2 + rest);
        assert(b.skip(e0.len() as int).skip(e1.len() as int) =~= e2 + rest);
        <Option<i32> as Deserialize>::lemma_round_trip(v.timestamp, rest);
        assert(ChatMessageV { sender: v.sender, content: v.content, timestamp: v.timestamp }
            =~= v);
    }
}

} // verus!
