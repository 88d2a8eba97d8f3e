//! Keys of packed entries: the bytes stored in a chunk, and the text that
//! names the key in a generated lookup table.
use crate::endian::{append_bytes, be32, le32, push_u32_be, push_u32_le};
use crate::text::{decimal, escaped, push_decimal, push_escaped};
use vstd::prelude::*;
use vstd::string::StringSliceAdditionalSpecFns;

verus! {

/// A key of the chunk packers, with the C initialiser text that names it.
pub trait ChunkEntryKey {
    /// The bytes that are stored in a chunk for this key.
    spec fn key_bytes(&self) -> Seq<u8>;

    /// The text that names this key in a lookup table.
    spec fn label(&self) -> Seq<u8>;

    fn bytes(&self) -> (r: &[u8])
        ensures
            r@ == self.key_bytes(),
    ;

    fn c(&self) -> (r: &[u8])
        ensures
            r@ == self.label(),
    ;
}

/// A key of the packers with JavaScript lookup tables, with the literal that
/// names it.
pub trait PackedEntryKey {
    /// The bytes that are stored in a package for this key.
    spec fn key_bytes(&self) -> Seq<u8>;

    /// The JavaScript literal that names this key in a lookup table.
    spec fn label(&self) -> Seq<u8>;

    fn bytes(&self) -> (r: &[u8])
        ensures
            r@ == self.key_bytes(),
    ;

    fn js(&self) -> (r: &[u8])
        ensures
            r@ == self.label(),
    ;
}

/// `{.intval = N}`
pub open spec fn c_u32_label(key: u32) -> Seq<u8> {
    "{.intval = ".spec_bytes() + decimal(key as nat) + seq![125u8]
}

/// `{.strval = {.val = "ESCAPED", .len = N}}`
pub open spec fn c_str_label(key: Seq<u8>) -> Seq<u8> {
    "{.strval = {.val = \"".spec_bytes() + escaped(key) + "\", .len = ".spec_bytes() + decimal(
        key.len(),
    ) + "}}".spec_bytes()
}

/// A key's bytes prefixed by its length in one byte.
pub open spec fn prefixed(key: Seq<u8>) -> Seq<u8> {
    seq![key.len() as u8] + key
}

/// `"ESCAPED"`
pub open spec fn js_str_label(key: Seq<u8>) -> Seq<u8> {
    seq![34u8] + escaped(key) + seq![34u8]
}

fn push_str(out: &mut Vec<u8>, s: &str)
    ensures
        final(out)@ == old(out)@ + s.spec_bytes(),
{
    append_bytes(out, s.as_bytes());
}

/// A document id key, stored little-endian.
pub struct ChunkU32Key {
    bytes: Vec<u8>,
    c: Vec<u8>,
}

impl ChunkU32Key {
    pub fn new(key: u32) -> (r: ChunkU32Key)
        ensures
            r.key_bytes() == le32(key),
            r.label() == c_u32_label(key),
    {
        let mut bytes: Vec<u8> = Vec::new();
        push_u32_le(&mut bytes, key);
        let mut c: Vec<u8> = Vec::new();
        push_str(&mut c, "{.intval = ");
        push_decimal(&mut c, key as u64);
        c.push(125);
        ChunkU32Key { bytes, c }
    }
}

impl ChunkEntryKey for ChunkU32Key {
    closed spec fn key_bytes(&self) -> Seq<u8> {
        self.bytes@
    }

    closed spec fn label(&self) -> Seq<u8> {
        self.c@
    }

    fn bytes(&self) -> (r: &[u8]) {
        self.bytes.as_slice()
    }

    fn c(&self) -> (r: &[u8]) {
        self.c.as_slice()
    }
}

/// A term key, stored as its length in one byte followed by its bytes.
pub struct ChunkStrKey {
    bytes: Vec<u8>,
    c: Vec<u8>,
}

impl ChunkStrKey {
    pub fn new(key: &[u8]) -> (r: ChunkStrKey)
        requires
            key@.len() <= 255,
        ensures
            r.key_bytes() == prefixed(key@),
            r.label() == c_str_label(key@),
    {
        let mut bytes: Vec<u8> = Vec::new();
        bytes.push(key.len() as u8);
        append_bytes(&mut bytes, key);
        let mut c: Vec<u8> = Vec::new();
        push_str(&mut c, "{.strval = {.val = \"");
        push_escaped(&mut c, key);
        push_str(&mut c, "\", .len = ");
        push_decimal(&mut c, key.len() as u64);
        push_str(&mut c, "}}");
        ChunkStrKey { bytes, c }
    }
}

impl ChunkEntryKey for ChunkStrKey {
    closed spec fn key_bytes(&self) -> Seq<u8> {
        self.bytes@
    }

    closed spec fn label(&self) -> Seq<u8> {
        self.c@
    }

    fn bytes(&self) -> (r: &[u8]) {
        self.bytes.as_slice()
    }

    fn c(&self) -> (r: &[u8]) {
        self.c.as_slice()
    }
}

/// A document id key, stored big-endian.
pub struct PackedU32Key {
    bytes: Vec<u8>,
    js: Vec<u8>,
}

impl PackedU32Key {
    pub fn new(key: u32) -> (r: PackedU32Key)
        ensures
            r.key_bytes() == be32(key),
            r.label() == decimal(key as nat),
    {
        let mut bytes: Vec<u8> = Vec::new();
        push_u32_be(&mut bytes, key);
        let mut js: Vec<u8> = Vec::new();
        push_decimal(&mut js, key as u64);
        PackedU32Key { bytes, js }
    }
}

impl PackedEntryKey for PackedU32Key {
    closed spec fn key_bytes(&self) -> Seq<u8> {
        self.bytes@
    }

    closed spec fn label(&self) -> Seq<u8> {
        self.js@
    }

    fn bytes(&self) -> (r: &[u8]) {
        self.bytes.as_slice()
    }

    fn js(&self) -> (r: &[u8]) {
        self.js.as_slice()
    }
}

/// A term key, stored as its length in one byte followed by its bytes.
pub struct PackedStrKey {
    bytes: Vec<u8>,
    js: Vec<u8>,
}

impl PackedStrKey {
    pub fn new(key: &[u8]) -> (r: PackedStrKey)
        requires
            key@.len() <= 255,
        ensures
            r.key_bytes() == prefixed(key@),
            r.label() == js_str_label(key@),
    {
        let mut bytes: Vec<u8> = Vec::new();
        bytes.push(key.len() as u8);
        append_bytes(&mut bytes, key);
        let mut js: Vec<u8> = Vec::new();
        js.push(34);
        push_escaped(&mut js, key);
        js.push(34);
        PackedStrKey { bytes, js }
    }
}

impl PackedEntryKey for PackedStrKey {
    closed spec fn key_bytes(&self) -> Seq<u8> {
        self.bytes@
    }

    closed spec fn label(&self) -> Seq<u8> {
        self.js@
    }

    fn bytes(&self) -> (r: &[u8]) {
        self.bytes.as_slice()
    }

    fn js(&self) -> (r: &[u8]) {
        self.js.as_slice()
    }
}

} // verus!
