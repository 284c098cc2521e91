//! The reply tree: the six RESP reply kinds, the owned tree of parsed
//! replies, and the typed accessors through which callers inspect a reply.
//! A root `Reply` owns every descendant; children are reached only through
//! borrowed views whose lifetime is tied to the root, so a child can never
//! be released on its own.

use vstd::prelude::*;

verus! {

/// The tag of a reply, one of the six kinds a conformant RESP stream produces.
#[derive(Clone, Copy, PartialEq, Eq, Structural, Debug)]
pub enum ReplyCode {
    String,
    Array,
    Integer,
    Nil,
    Status,
    Error,
}

/// The mathematical model of a reply tree: payloads as byte sequences,
/// integers unbounded, array elements as a sequence of models.
pub enum AbsReply {
    String(Seq<u8>),
    Integer(int),
    Array(Seq<AbsReply>),
    Nil,
    Status(Seq<u8>),
    Error(Seq<u8>),
}

/// A parsed reply. A value of this type returned from a top-level parse is a
/// root and owns all storage beneath it: releasing the root releases every
/// descendant exactly once, and descendants are only ever exposed as borrows
/// into the root's storage.
#[derive(Debug)]
pub enum Reply {
    String(Vec<u8>),
    Integer(i64),
    Array(Vec<Reply>),
    Nil,
    Status(Vec<u8>),
    Error(Vec<u8>),
}

/// The models of a sequence of replies, element by element.
pub open spec fn views_of(es: Seq<Reply>) -> Seq<AbsReply>
    decreases es,
{
    if es.len() == 0 {
        Seq::empty()
    } else {
        seq![es.first()@] + views_of(es.drop_first())
    }
}

impl View for Reply {
    type V = AbsReply;

    open spec fn view(&self) -> AbsReply
        decreases self,
    {
        match self {
            Reply::String(b) => AbsReply::String(b@),
            Reply::Integer(i) => AbsReply::Integer(*i as int),
            Reply::Array(es) => AbsReply::Array(views_of(es@)),
            Reply::Nil => AbsReply::Nil,
            Reply::Status(b) => AbsReply::Status(b@),
            Reply::Error(b) => AbsReply::Error(b@),
        }
    }
}

/// `views_of` maps the sequence pointwise.
pub proof fn lemma_views_of(es: Seq<Reply>)
    ensures
        views_of(es).len() == es.len(),
        forall|i: int| 0 <= i < es.len() ==> views_of(es)[i] == #[trigger] es[i]@,
    decreases es,
{
    if es.len() == 0 {
        assert(views_of(es) == Seq::<AbsReply>::empty());
    } else {
        lemma_views_of(es.drop_first());
        assert(views_of(es) == seq![es.first()@] + views_of(es.drop_first()));
        assert(views_of(es).len() == 1 + views_of(es.drop_first()).len());
        assert forall|i: int| 0 <= i < es.len() implies views_of(es)[i] == #[trigger] es[i]@ by {
            if i == 0 {
                assert(views_of(es)[0] == es.first()@);
            } else {
                assert(views_of(es)[i] == views_of(es.drop_first())[i - 1]);
                assert(es.drop_first()[i - 1] == es[i]);
            }
        }
    }
}

/// Appending one reply to a sequence appends its model to the models.
pub proof fn lemma_views_of_push(es: Seq<Reply>, r: Reply)
    ensures
        views_of(es.push(r)) == views_of(es).push(r@),
    decreases es,
{
    if es.len() == 0 {
        assert(es.push(r).drop_first() =~= Seq::<Reply>::empty());
        assert(es.push(r).first() == r);
        assert(views_of(Seq::<Reply>::empty()) == Seq::<AbsReply>::empty());
        assert(views_of(es.push(r)) == seq![r@] + Seq::<AbsReply>::empty());
        assert(views_of(es) == Seq::<AbsReply>::empty());
        assert(views_of(es.push(r)) =~= views_of(es).push(r@));
    } else {
        assert(es.push(r).first() == es.first());
        assert(es.push(r).drop_first() =~= es.drop_first().push(r));
        lemma_views_of_push(es.drop_first(), r);
        assert(views_of(es.push(r))
            == seq![es.first()@] + views_of(es.drop_first()).push(r@));
        assert(views_of(es) == seq![es.first()@] + views_of(es.drop_first()));
        assert(views_of(es.push(r)) =~= views_of(es).push(r@));
    }
}

impl Reply {
    /// The kind tag of this reply's model.
    pub open spec fn spec_code(&self) -> ReplyCode {
        match self@ {
            AbsReply::String(_) => ReplyCode::String,
            AbsReply::Integer(_) => ReplyCode::Integer,
            AbsReply::Array(_) => ReplyCode::Array,
            AbsReply::Nil => ReplyCode::Nil,
            AbsReply::Status(_) => ReplyCode::Status,
            AbsReply::Error(_) => ReplyCode::Error,
        }
    }

    /// Reports which of the six kinds this reply is.
    pub fn typename(&self) -> (c: ReplyCode)
        ensures
            c == self.spec_code(),
    {
        match self {
            Reply::String(_) => ReplyCode::String,
            Reply::Integer(_) => ReplyCode::Integer,
            Reply::Array(_) => ReplyCode::Array,
            Reply::Nil => ReplyCode::Nil,
            Reply::Status(_) => ReplyCode::Status,
            Reply::Error(_) => ReplyCode::Error,
        }
    }

    /// The payload bytes, for the three byte-carrying kinds; `None` for every
    /// other kind (a kind mismatch is a checkable condition, not a failure).
    pub fn as_bytes(&self) -> (r: Option<&Vec<u8>>)
        ensures
            match self@ {
                AbsReply::String(b) => r matches Some(v) && v@ == b,
                AbsReply::Status(b) => r matches Some(v) && v@ == b,
                AbsReply::Error(b) => r matches Some(v) && v@ == b,
                _ => r is None,
            },
    {
        match self {
            Reply::String(b) => Some(b),
            Reply::Status(b) => Some(b),
            Reply::Error(b) => Some(b),
            _ => None,
        }
    }

    /// The integer payload, only for the `Integer` kind.
    pub fn as_integer(&self) -> (r: Option<i64>)
        ensures
            match self@ {
                AbsReply::Integer(i) => r matches Some(v) && v as int == i,
                _ => r is None,
            },
    {
        match self {
            Reply::Integer(i) => Some(*i),
            _ => None,
        }
    }

    /// The ordered elements, as borrowed views into this root's storage, only
    /// for the `Array` kind.
    pub fn as_array(&self) -> (r: Option<&Vec<Reply>>)
        ensures
            match self@ {
                AbsReply::Array(es) => r matches Some(v) && views_of(v@) == es,
                _ => r is None,
            },
    {
        match self {
            Reply::Array(es) => Some(es),
            _ => None,
        }
    }

    /// The payload bytes of a `String` reply alone; `Status` and `Error`
    /// payloads are reached through `as_bytes`.
    pub fn string(&self) -> (r: Option<&Vec<u8>>)
        ensures
            match self@ {
                AbsReply::String(b) => r matches Some(v) && v@ == b,
                _ => r is None,
            },
    {
        match self {
            Reply::String(b) => Some(b),
            _ => None,
        }
    }
}

} // verus!
