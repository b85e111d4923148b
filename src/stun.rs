//! STUN message types and their wire encoding.
use rand_chacha::rand_core::{OsRng, RngCore, SeedableRng};
use rand_chacha::ChaCha20Rng;
use vstd::prelude::*;

verus! {

/// The magic cookie that every STUN header carries, in network byte order.
pub const MAGIC_COOKIE: u32 = 0x2112A442;

/// The type number of the SOFTWARE attribute.
pub const SOFTWARE_TYPE: u16 = 0x8022;

/// The longest value a SOFTWARE attribute may hold, in bytes.
pub const SOFTWARE_MAX_LEN: usize = 763;

/// The two bytes of `v`, most significant first.
pub open spec fn u16_be(v: u16) -> Seq<u8> {
    seq![(v / 256) as u8, (v % 256) as u8]
}

/// The four bytes of `v`, most significant first.
pub open spec fn u32_be(v: u32) -> Seq<u8> {
    seq![(v / 0x1000000) as u8, ((v / 0x10000) % 256) as u8, ((v / 256) % 256) as u8, (v % 256) as u8]
}

/// The class of a message.
#[derive(Copy, Clone, Debug, PartialEq, Eq, PartialOrd, Ord, Hash)]
pub enum Class {
    Request,
    Indication,
    Success,
    Error,
}

impl Class {
    /// The two-bit number of the class.
    pub open spec fn spec_code(self) -> u8 {
        match self {
            Class::Request => 0,
            Class::Indication => 1,
            Class::Success => 2,
            Class::Error => 3,
        }
    }

    /// The two-bit number of the class.
    pub fn code(self) -> (r: u8)
        ensures
            r == self.spec_code(),
    {
        match self {
            Class::Request => 0,
            Class::Indication => 1,
            Class::Success => 2,
            Class::Error => 3,
        }
    }
}

/// The method of a message.
#[derive(Copy, Clone, Debug, PartialEq, Eq, PartialOrd, Ord, Hash)]
pub enum Method {
    /// Binding, from RFC 5389.
    Binding,
    /// Allocate, from RFC 5766.
    Allocate,
    /// Refresh, from RFC 5766.
    Refresh,
    /// Send, from RFC 5766.
    Send,
    /// Data, from RFC 5766.
    Data,
    /// CreatePermission, from RFC 5766.
    CreatePermission,
    /// ChannelBind, from RFC 5766.
    ChannelBind,
}

impl Method {
    /// The method number.
    pub open spec fn spec_code(self) -> u8 {
        match self {
            Method::Binding => 1,
            Method::Allocate => 3,
            Method::Refresh => 4,
            Method::Send => 6,
            Method::Data => 7,
            Method::CreatePermission => 8,
            Method::ChannelBind => 9,
        }
    }

    /// The method number.
    pub fn code(self) -> (r: u8)
        ensures
            r == self.spec_code(),
    {
        match self {
            Method::Binding => 1,
            Method::Allocate => 3,
            Method::Refresh => 4,
            Method::Send => 6,
            Method::Data => 7,
            Method::CreatePermission => 8,
            Method::ChannelBind => 9,
        }
    }
}

/// The type of a message: its class and its method.
#[derive(Copy, Clone, Debug, PartialEq, Eq, PartialOrd, Ord, Hash)]
pub struct Type {
    pub class: Class,
    pub method: Method,
}

/// The 14-bit type field: the method's bits, with the low class bit at bit 4
/// and the high class bit at bit 8.
pub open spec fn type_value(t: Type) -> u16 {
    (t.method.spec_code() as u16 + (if t.class.spec_code() % 2 == 1 { 0x10u16 } else { 0u16 }) + (
    if t.class.spec_code() / 2 == 1 {
        0x100u16
    } else {
        0u16
    })) as u16
}

impl Type {
    /// The 14-bit type field of the header.
    pub fn value(self) -> (r: u16)
        ensures
            r == type_value(self),
    {
        let mut result: u16 = self.method.code() as u16;
        let class = self.class.code();
        if class % 2 == 1 {
            result = result + 0x10;
        }
        if class / 2 == 1 {
            result = result + 0x100;
        }
        result
    }

    /// The type field as two bytes, most significant first.
    pub fn to_bytes(self) -> (r: [u8; 2])
        ensures
            r@ == u16_be(type_value(self)),
    {
        let v = self.value();
        let r = [(v / 256) as u8, (v % 256) as u8];
        proof {
            assert(r@ =~= u16_be(type_value(self)));
        }
        r
    }
}

impl From<Type> for u16 {
    fn from(t: Type) -> (r: u16) {
        t.value()
    }
}

impl vstd::std_specs::convert::FromSpecImpl<Type> for u16 {
    open spec fn obeys_from_spec() -> bool {
        true
    }

    open spec fn from_spec(t: Type) -> u16 {
        type_value(t)
    }
}

impl From<Type> for [u8; 2] {
    fn from(t: Type) -> (r: [u8; 2]) {
        t.to_bytes()
    }
}

impl vstd::std_specs::convert::FromSpecImpl<Type> for [u8; 2] {
    open spec fn obeys_from_spec() -> bool {
        true
    }

    open spec fn from_spec(t: Type) -> [u8; 2] {
        [(type_value(t) / 256) as u8, (type_value(t) % 256) as u8]
    }
}


/// A length rounded up to a multiple of four.
pub open spec fn padded(n: nat) -> nat {
    ((n + 3) / 4) * 4
}

/// A SOFTWARE attribute: a description of the software that sends the message.
#[derive(Debug, PartialEq, Eq, PartialOrd, Ord, Hash)]
pub struct Software {
    value: Vec<u8>,
}

impl View for Software {
    type V = Seq<u8>;

    closed spec fn view(&self) -> Seq<u8> {
        self.value@
    }
}

impl Clone for Software {
    fn clone(&self) -> (r: Software)
        ensures
            r@ == self@,
    {
        proof {
            use_type_invariant(self);
        }
        let value = self.value.clone();
        proof {
            assert(value@ =~= self.value@);
        }
        Software { value }
    }
}

impl Software {
    #[verifier::type_invariant]
    spec fn inv(self) -> bool {
        self.value@.len() <= SOFTWARE_MAX_LEN
    }

    /// A SOFTWARE attribute holding `value`, or `None` where it is longer than
    /// the attribute allows.
    pub fn new(value: Vec<u8>) -> (r: Option<Software>)
        ensures
            r is Some <==> value@.len() <= SOFTWARE_MAX_LEN,
            r matches Some(s) ==> s@ == value@,
    {
        if value.len() <= SOFTWARE_MAX_LEN {
            Some(Software { value })
        } else {
            None
        }
    }

    /// The bytes of the description.
    pub fn value(&self) -> (r: &Vec<u8>)
        ensures
            r@ == self@,
    {
        &self.value
    }
}

/// An attribute of a message.
#[derive(Clone, Debug, PartialEq, Eq, PartialOrd, Ord, Hash)]
pub enum Attribute {
    Software(Software),
}

/// The length of an attribute's value, before padding.
pub open spec fn value_len(a: Attribute) -> nat {
    match a {
        Attribute::Software(s) => s@.len(),
    }
}

/// The length an attribute takes in a message: a four-byte header and the
/// value padded to a multiple of four.
pub open spec fn attribute_len(a: Attribute) -> nat {
    4 + padded(value_len(a))
}

/// The encoding of an attribute: type, value length, value, zero padding.
pub open spec fn attribute_bytes(a: Attribute) -> Seq<u8> {
    match a {
        Attribute::Software(s) => u16_be(SOFTWARE_TYPE) + u16_be(s@.len() as u16) + s@
            + Seq::new((padded(s@.len()) - s@.len()) as nat, |i: int| 0u8),
    }
}

impl Attribute {
    /// The length the attribute takes in a message, padding included.
    pub fn len(&self) -> (r: usize)
        ensures
            r == attribute_len(*self),
            r <= 4 + SOFTWARE_MAX_LEN + 1,
    {
        match self {
            Attribute::Software(s) => {
                proof {
                    use_type_invariant(s);
                }
                let n = s.value.len();
                4 + (n + 3) / 4 * 4
            },
        }
    }

    /// The encoding of the attribute.
    pub fn to_bytes(&self) -> (r: Vec<u8>)
        ensures
            r@ == attribute_bytes(*self),
    {
        match self {
            Attribute::Software(s) => {
                proof {
                    use_type_invariant(s);
                }
                let n = s.value.len();
                let mut out: Vec<u8> = Vec::new();
                out.push((SOFTWARE_TYPE / 256) as u8);
                out.push((SOFTWARE_TYPE % 256) as u8);
                out.push((n / 256) as u8);
                out.push((n % 256) as u8);
                proof {
                    assert(out@ =~= u16_be(SOFTWARE_TYPE) + u16_be(n as u16) + s@.take(0));
                }
                let mut i: usize = 0;
                while i < n
                    invariant
                        n == s@.len(),
                        n <= SOFTWARE_MAX_LEN,
                        i <= n,
                        out@ == u16_be(SOFTWARE_TYPE) + u16_be(n as u16) + s@.take(i as int),
                    decreases n - i,
                {
                    out.push(s.value[i]);
                    proof {
                        assert(s@.take(i as int + 1) == s@.take(i as int).push(s@[i as int]));
                    }
                    i = i + 1;
                }
                let padded_len: usize = (n + 3) / 4 * 4;
                let ghost body = out@;
                while i < padded_len
                    invariant
                        n == s@.len(),
                        n <= i <= padded_len,
                        padded_len == padded(n as nat),
                        body == u16_be(SOFTWARE_TYPE) + u16_be(n as u16) + s@,
                        out@ == body + Seq::new((i - n) as nat, |k: int| 0u8),
                    decreases padded_len - i,
                {
                    out.push(0u8);
                    proof {
                        assert(Seq::new((i + 1 - n) as nat, |k: int| 0u8)
                            =~= Seq::new((i - n) as nat, |k: int| 0u8).push(0u8));
                    }
                    i = i + 1;
                }
                proof {
                    assert(s@.take(n as int) == s@);
                }
                out
            },
        }
    }
}

/// The total length of a list of attributes in a message.
pub open spec fn attributes_len(attrs: Seq<Attribute>) -> nat
    decreases attrs.len(),
{
    if attrs.len() == 0 {
        0
    } else {
        attributes_len(attrs.drop_last()) + attribute_len(attrs.last())
    }
}

/// The encodings of a list of attributes, one after the other.
pub open spec fn attributes_bytes(attrs: Seq<Attribute>) -> Seq<u8>
    decreases attrs.len(),
{
    if attrs.len() == 0 {
        Seq::empty()
    } else {
        attributes_bytes(attrs.drop_last()) + attribute_bytes(attrs.last())
    }
}

/// Relies on `SeedableRng::from_rng` with `OsRng`, which reports a failure of
/// the operating system's entropy source as an error, and on
/// `RngCore::fill_bytes` of `ChaCha20Rng`: twelve bytes from the seeded
/// generator, or `None` where no seed could be had. Nothing is known of the
/// bytes.
#[verifier::external_body]
fn random_transaction_id() -> (r: Option<[u8; 12]>) {
    match ChaCha20Rng::from_rng(OsRng) {
        Ok(mut rng) => {
            let mut tid = [0u8; 12];
            rng.fill_bytes(&mut tid);
            Some(tid)
        },
        Err(_) => None,
    }
}

/// A whole STUN message: header fields and attributes. Resending a request
/// reuses the message; a new transaction takes a new message, with a new
/// transaction id.
#[derive(Clone, Debug, PartialEq, Eq, PartialOrd, Ord, Hash)]
pub struct Message {
    tid: [u8; 12],
    ty: Type,
    attrs: Vec<Attribute>,
}

impl Message {
    /// The transaction id.
    pub closed spec fn spec_tid(&self) -> [u8; 12] {
        self.tid
    }

    /// The message type.
    pub closed spec fn spec_type(&self) -> Type {
        self.ty
    }

    /// The attributes, in order.
    pub closed spec fn spec_attrs(&self) -> Seq<Attribute> {
        self.attrs@
    }

    /// A message of type `ty` with no attributes and a random transaction id,
    /// or `None` where the operating system gave no entropy to draw the id from.
    pub fn new(ty: Type) -> (r: Option<Message>)
        ensures
            r matches Some(m) ==> m.spec_type() == ty && m.spec_attrs() == Seq::<Attribute>::empty(),
    {
        match random_transaction_id() {
            Some(tid) => Some(Message { tid, ty, attrs: Vec::new() }),
            None => None,
        }
    }

    /// A message with the given transaction id, type and attributes.
    pub fn with_parts(tid: [u8; 12], ty: Type, attrs: Vec<Attribute>) -> (r: Message)
        ensures
            r.spec_tid() == tid,
            r.spec_type() == ty,
            r.spec_attrs() == attrs@,
    {
        Message { tid, ty, attrs }
    }

    /// The total length of the message without its header, padding included.
    pub fn len(&self) -> (r: usize)
        requires
            attributes_len(self.spec_attrs()) <= usize::MAX,
        ensures
            r == attributes_len(self.spec_attrs()),
    {
        let mut result: usize = 0;
        let mut i: usize = 0;
        while i < self.attrs.len()
            invariant
                i <= self.attrs@.len(),
                attributes_len(self.attrs@) <= usize::MAX,
                result == attributes_len(self.attrs@.take(i as int)),
            decreases self.attrs@.len() - i,
        {
            proof {
                assert(self.attrs@.take(i as int + 1).drop_last() == self.attrs@.take(i as int));
                lemma_attributes_len_prefix(self.attrs@, i as int + 1);
            }
            result = result + self.attrs[i].len();
            i = i + 1;
        }
        proof {
            assert(self.attrs@.take(i as int) == self.attrs@);
        }
        result
    }

    /// Appends an attribute at the end of the message. The order is kept: a
    /// receiver handles the first of several attributes of one type.
    pub fn push(&mut self, attr: Attribute)
        ensures
            final(self).spec_attrs() == old(self).spec_attrs().push(attr),
            final(self).spec_type() == old(self).spec_type(),
            final(self).spec_tid() == old(self).spec_tid(),
    {
        self.attrs.push(attr);
    }

    /// The body length taken modulo 2^16, as the header's length field holds it.
    pub fn length_field(&self) -> (r: u16)
        ensures
            r == attributes_len(self.spec_attrs()) % 0x10000,
    {
        let mut result: u16 = 0;
        let mut i: usize = 0;
        while i < self.attrs.len()
            invariant
                i <= self.attrs@.len(),
                result == attributes_len(self.attrs@.take(i as int)) % 0x10000,
            decreases self.attrs@.len() - i,
        {
            let n = self.attrs[i].len();
            proof {
                assert(self.attrs@.take(i as int + 1).drop_last() == self.attrs@.take(i as int));
                vstd::arithmetic::div_mod::lemma_add_mod_noop(
                    attributes_len(self.attrs@.take(i as int)) as int,
                    n as int,
                    0x10000,
                );
                vstd::arithmetic::div_mod::lemma_small_mod(n as nat, 0x10000);
            }
            result = ((result as usize + n) % 0x10000) as u16;
            i = i + 1;
        }
        proof {
            assert(self.attrs@.take(i as int) == self.attrs@);
        }
        result
    }

    /// The encoding of the message: type, body length, magic cookie,
    /// transaction id, then each attribute.
    pub fn to_bytes(&self) -> (r: Vec<u8>)
        ensures
            r@ == message_bytes(*self),
    {
        let len16 = self.length_field();
        let mut result: Vec<u8> = Vec::new();
        let ty = self.ty.to_bytes();
        result.push(ty[0]);
        result.push(ty[1]);
        result.push((len16 / 256) as u8);
        result.push((len16 % 256) as u8);
        result.push((MAGIC_COOKIE / 0x1000000) as u8);
        result.push(((MAGIC_COOKIE / 0x10000) % 256) as u8);
        result.push(((MAGIC_COOKIE / 256) % 256) as u8);
        result.push((MAGIC_COOKIE % 256) as u8);
        let mut k: usize = 0;
        while k < 12
            invariant
                k <= 12,
                result@ == u16_be(type_value(self.ty)) + u16_be(len16) + u32_be(MAGIC_COOKIE)
                    + self.tid@.take(k as int),
            decreases 12 - k,
        {
            result.push(self.tid[k]);
            proof {
                assert(self.tid@.take(k as int + 1) == self.tid@.take(k as int).push(self.tid@[k as int]));
            }
            k = k + 1;
        }
        let ghost header = result@;
        proof {
            assert(self.tid@.take(12) == self.tid@);
        }
        let mut i: usize = 0;
        while i < self.attrs.len()
            invariant
                i <= self.attrs@.len(),
                result@ == header + attributes_bytes(self.attrs@.take(i as int)),
            decreases self.attrs@.len() - i,
        {
            let mut bytes = self.attrs[i].to_bytes();
            result.append(&mut bytes);
            proof {
                assert(self.attrs@.take(i as int + 1).drop_last() == self.attrs@.take(i as int));
            }
            i = i + 1;
        }
        proof {
            assert(self.attrs@.take(i as int) == self.attrs@);
        }
        result
    }
}

/// The encoding of a message; the length field holds the body length taken
/// modulo 2^16.
pub open spec fn message_bytes(m: Message) -> Seq<u8> {
    u16_be(type_value(m.spec_type())) + u16_be((attributes_len(m.spec_attrs()) % 0x10000) as u16)
        + u32_be(MAGIC_COOKIE) + m.spec_tid()@ + attributes_bytes(m.spec_attrs())
}

/// The total length of a prefix is at most that of the whole list.
proof fn lemma_attributes_len_prefix(attrs: Seq<Attribute>, n: int)
    requires
        0 <= n <= attrs.len(),
    ensures
        attributes_len(attrs.take(n)) <= attributes_len(attrs),
    decreases attrs.len(),
{
    if n < attrs.len() {
        assert(attrs.drop_last().take(n) == attrs.take(n));
        lemma_attributes_len_prefix(attrs.drop_last(), n);
    } else {
        assert(attrs.take(n) == attrs);
    }
}

impl From<Message> for Vec<u8> {
    fn from(m: Message) -> (r: Vec<u8>) {
        m.to_bytes()
    }
}

impl vstd::std_specs::convert::FromSpecImpl<Message> for Vec<u8> {
    open spec fn obeys_from_spec() -> bool {
        false
    }

    open spec fn from_spec(m: Message) -> Vec<u8> {
        arbitrary()
    }
}

} // verus!
