//! The command model: typed GET and SET requests built from a decoded
//! array frame, and their effect on the store.

use vstd::prelude::*;
use vstd::utf8::{decode_utf8, encode_utf8, valid_utf8};

use crate::database::Database;
use crate::frame::{Frame, FrameView, Parse, ParseError};

verus! {

/// A GET request: fetch one key's value.
#[derive(Debug)]
pub struct Get {
    key: String,
}

/// A SET request: bind one key to a byte-sequence value.
#[derive(Debug)]
pub struct SetCommand {
    key: String,
    value: Vec<u8>,
}

/// The request a command frame denotes.
pub enum ReqView {
    Get(Seq<char>),
    SetCommand(Seq<char>, Seq<u8>),
}

/// One parsed request.
#[derive(Debug)]
pub enum Request {
    Get(Get),
    SetCommand(SetCommand),
}

/// The reply a command produces.
#[derive(Debug, PartialEq)]
pub enum Response {
    OK,
    ERR(String),
    DATA(Vec<u8>),
    NULL,
}

/// Why a command frame was rejected: an unrecognized verb is a protocol
/// violation of its own; anything else wraps the cursor's failure.
#[derive(Debug, PartialEq, Eq, Structural)]
pub enum CommandError {
    UnknownCommand,
    BadArgument(ParseError),
}

impl View for Get {
    type V = Seq<char>;

    closed spec fn view(&self) -> Seq<char> {
        self.key@
    }
}

impl View for SetCommand {
    type V = (Seq<char>, Seq<u8>);

    closed spec fn view(&self) -> (Seq<char>, Seq<u8>) {
        (self.key@, self.value@)
    }
}

impl View for Request {
    type V = ReqView;

    open spec fn view(&self) -> ReqView {
        match self {
            Request::Get(g) => ReqView::Get(g@),
            Request::SetCommand(s) => ReqView::SetCommand(s@.0, s@.1),
        }
    }
}

/// The text a frame element carries: a bulk frame's bytes read as UTF-8,
/// or a simple frame's text.
pub open spec fn text_arg(v: FrameView) -> Option<Seq<char>> {
    match v {
        FrameView::Bulk(b) => if valid_utf8(b) {
            Some(decode_utf8(b))
        } else {
            None
        },
        FrameView::Simple(t) => Some(t),
        _ => None,
    }
}

/// ASCII letters folded to lower case, byte for byte.
pub open spec fn ascii_lower(b: Seq<u8>) -> Seq<u8> {
    b.map_values(
        |c: u8|
            if 65 <= c <= 90 {
                (c + 32) as u8
            } else {
                c
            },
    )
}

/// The canonical GET verb, as bytes.
pub open spec fn get_verb() -> Seq<u8> {
    seq![103u8, 101u8, 116u8]
}

/// The canonical SET verb, as bytes.
pub open spec fn set_verb() -> Seq<u8> {
    seq![115u8, 101u8, 116u8]
}

/// The element names the GET command, compared case-insensitively.
pub open spec fn is_get_verb(v: FrameView) -> bool {
    text_arg(v) matches Some(t) && ascii_lower(encode_utf8(t)) == get_verb()
}

/// The element names the SET command, compared case-insensitively.
pub open spec fn is_set_verb(v: FrameView) -> bool {
    text_arg(v) matches Some(t) && ascii_lower(encode_utf8(t)) == set_verb()
}

/// The request denoted by the elements of a command frame: the first
/// element selects the command, the rest are its arguments; extra
/// elements are ignored.
pub open spec fn spec_request(elems: Seq<FrameView>) -> Option<ReqView> {
    if elems.len() == 0 {
        None
    } else if is_get_verb(elems[0]) {
        if elems.len() >= 2 && text_arg(elems[1]) is Some {
            Some(ReqView::Get(text_arg(elems[1])->0))
        } else {
            None
        }
    } else if is_set_verb(elems[0]) {
        if elems.len() >= 2 && text_arg(elems[1]) is Some && elems.len() >= 3 && elems[2] is Bulk {
            Some(ReqView::SetCommand(text_arg(elems[1])->0, elems[2]->Bulk_0))
        } else {
            None
        }
    } else {
        None
    }
}

/// Compares `bs`, ASCII letters folded to lower case, against `w`.
fn ascii_lower_eq(bs: &[u8], w: &[u8]) -> (r: bool)
    ensures
        r == (ascii_lower(bs@) == w@),
{
    if bs.len() != w.len() {
        assert(ascii_lower(bs@).len() == bs@.len());
        return false;
    }
    let mut i: usize = 0;
    while i < bs.len()
        invariant
            bs@.len() == w@.len(),
            i <= bs@.len(),
            forall|j: int| 0 <= j < i ==> #[trigger] ascii_lower(bs@)[j] == w@[j],
        decreases bs@.len() - i,
    {
        let c = bs[i];
        let lo: u8 = if 65 <= c && c <= 90 {
            c + 32
        } else {
            c
        };
        assert(ascii_lower(bs@)[i as int] == lo);
        if lo != w[i] {
            return false;
        }
        i = i + 1;
    }
    proof {
        assert(ascii_lower(bs@) =~= w@);
    }
    true
}

/// The three bytes of the canonical GET verb.
fn get_verb_bytes() -> (v: Vec<u8>)
    ensures
        v@ == get_verb(),
{
    let mut v: Vec<u8> = Vec::new();
    v.push(103);
    v.push(101);
    v.push(116);
    proof {
        assert(v@ =~= get_verb());
    }
    v
}

/// The three bytes of the canonical SET verb.
fn set_verb_bytes() -> (v: Vec<u8>)
    ensures
        v@ == set_verb(),
{
    let mut v: Vec<u8> = Vec::new();
    v.push(115);
    v.push(101);
    v.push(116);
    proof {
        assert(v@ =~= set_verb());
    }
    v
}

impl Get {
    pub fn new(key: String) -> (g: Get)
        ensures
            g@ == key@,
    {
        Get { key }
    }

    /// Serializes this request into its canonical frame: the lowercase
    /// verb, then the key, each as a bulk frame.
    pub fn into_frame(self) -> (f: Frame)
        ensures
            f@ == FrameView::Array(
                seq![
                    FrameView::Bulk(get_verb()),
                    FrameView::Bulk(encode_utf8(self@)),
                ],
            ),
    {
        let mut frame = Frame::new_array_frame();
        frame.push_bulk(get_verb_bytes());
        frame.push_bulk(vstd::slice::slice_to_vec(self.key.as_str().as_bytes()));
        proof {
            assert(Seq::<FrameView>::empty().push(FrameView::Bulk(get_verb())).push(
                FrameView::Bulk(encode_utf8(self.key@)),
            ) =~= seq![FrameView::Bulk(get_verb()), FrameView::Bulk(encode_utf8(self.key@))]);
        }
        frame
    }

    /// Parses the one GET argument, the key, off the cursor.
    fn from_frame(it: &mut Parse) -> (r: Result<Get, ParseError>)
        ensures
            match r {
                Ok(g) => old(it)@.len() > 0 && text_arg(old(it)@[0]) == Some(g@),
                Err(ParseError::Exhausted) => old(it)@.len() == 0,
                Err(ParseError::WrongKind) => old(it)@.len() > 0 && !(old(it)@[0] is Bulk
                    || old(it)@[0] is Simple),
                Err(ParseError::BadText) => old(it)@.len() > 0 && (old(it)@[0] matches
                    FrameView::Bulk(b) && !valid_utf8(b)),
            },
    {
        match it.next_string() {
            Ok(key) => Ok(Get::new(key)),
            Err(e) => Err(e),
        }
    }

    /// Applies this request to the store: the bound value as a bulk frame,
    /// or a null frame for an unbound key; the store is left untouched.
    pub fn apply(&self, db: &Database) -> (resp: Frame)
        requires
            db.distinct_keys(),
        ensures
            resp@ == if db@.contains_key(self@) {
                FrameView::Bulk(db@[self@])
            } else {
                FrameView::Null
            },
    {
        match db.get(&self.key) {
            Some(v) => Frame::Bulk(v),
            None => Frame::Null,
        }
    }
}

impl SetCommand {
    pub fn new(key: &str, value: Vec<u8>) -> (s: SetCommand)
        ensures
            s@ == (key@, value@),
    {
        SetCommand { key: key.to_owned(), value }
    }

    /// Serializes this request into its canonical frame: the lowercase
    /// verb, the key, and the value, each as a bulk frame.
    pub fn into_frame(self) -> (f: Frame)
        ensures
            f@ == FrameView::Array(
                seq![
                    FrameView::Bulk(set_verb()),
                    FrameView::Bulk(encode_utf8(self@.0)),
                    FrameView::Bulk(self@.1),
                ],
            ),
    {
        let ghost me = self@;
        let mut frame = Frame::new_array_frame();
        frame.push_bulk(set_verb_bytes());
        frame.push_bulk(vstd::slice::slice_to_vec(self.key.as_str().as_bytes()));
        frame.push_bulk(self.value);
        proof {
            assert(Seq::<FrameView>::empty().push(FrameView::Bulk(set_verb())).push(
                FrameView::Bulk(encode_utf8(me.0)),
            ).push(FrameView::Bulk(me.1)) =~= seq![
                FrameView::Bulk(set_verb()),
                FrameView::Bulk(encode_utf8(me.0)),
                FrameView::Bulk(me.1),
            ]);
        }
        frame
    }

    /// Parses the two SET arguments, key then value, off the cursor.
    fn from_frame(it: &mut Parse) -> (r: Result<SetCommand, ParseError>)
        ensures
            match r {
                Ok(s) => {
                    &&& old(it)@.len() >= 2
                    &&& text_arg(old(it)@[0]) == Some(s@.0)
                    &&& old(it)@[1] == FrameView::Bulk(s@.1)
                },
                Err(ParseError::Exhausted) => old(it)@.len() == 0 || (old(it)@.len() == 1
                    && text_arg(old(it)@[0]) is Some),
                Err(ParseError::WrongKind) => (old(it)@.len() > 0 && !(old(it)@[0] is Bulk
                    || old(it)@[0] is Simple)) || (old(it)@.len() >= 2 && text_arg(old(it)@[0])
                    is Some && !(old(it)@[1] is Bulk)),
                Err(ParseError::BadText) => old(it)@.len() > 0 && (old(it)@[0] matches
                    FrameView::Bulk(b) && !valid_utf8(b)),
            },
    {
        let key = match it.next_string() {
            Ok(key) => key,
            Err(e) => {
                return Err(e);
            },
        };
        let value = match it.next_bytes() {
            Ok(value) => value,
            Err(e) => {
                return Err(e);
            },
        };
        Ok(SetCommand::new(key.as_str(), value))
    }

    /// Applies this request to the store: binds the key, overwriting any
    /// previous value, and answers a simple OK either way.
    pub fn apply(&self, db: &mut Database) -> (resp: Frame)
        requires
            old(db).distinct_keys(),
        ensures
            final(db)@ == old(db)@.insert(self@.0, self@.1),
            final(db).distinct_keys(),
            resp@ == FrameView::Simple("OK"@),
    {
        let value = copy_bytes(&self.value);
        let key = self.key.as_str().to_owned();
        let _prev = db.set(key, value);
        Frame::Simple("OK".to_owned())
    }
}

/// Copies a byte vector.
fn copy_bytes(v: &Vec<u8>) -> (r: Vec<u8>)
    ensures
        r@ == v@,
{
    vstd::slice::slice_to_vec(v.as_slice())
}

impl Request {
    /// Selects and parses the command a frame carries. The first element
    /// names the command, compared case-insensitively; an unknown name is
    /// a protocol violation, never a silent no-op.
    pub fn from_frame(frame: Frame) -> (r: Result<Request, CommandError>)
        requires
            frame@ is Array,
        ensures
            ({
                let elems = frame@->Array_0;
                match r {
                    Ok(req) => spec_request(elems) == Some(req@),
                    Err(CommandError::UnknownCommand) => {
                        &&& elems.len() > 0
                        &&& text_arg(elems[0]) is Some
                        &&& !is_get_verb(elems[0])
                        &&& !is_set_verb(elems[0])
                    },
                    Err(CommandError::BadArgument(ParseError::Exhausted)) => elems.len() == 0 || (
                    elems.len() == 1 && (is_get_verb(elems[0]) || is_set_verb(elems[0]))) || (
                    elems.len() == 2 && is_set_verb(elems[0]) && text_arg(elems[1]) is Some),
                    Err(CommandError::BadArgument(ParseError::WrongKind)) => (elems.len() > 0 && !(
                    elems[0] is Bulk || elems[0] is Simple)) || (elems.len() >= 2 && is_get_verb(
                        elems[0],
                    ) && !(elems[1] is Bulk || elems[1] is Simple)) || (elems.len() >= 2
                        && is_set_verb(elems[0]) && ((!(elems[1] is Bulk || elems[1] is Simple)) || (
                    text_arg(elems[1]) is Some && elems.len() >= 3 && !(elems[2] is Bulk)))),
                    Err(CommandError::BadArgument(ParseError::BadText)) => (elems.len() > 0
                        && (elems[0] matches FrameView::Bulk(b) && !valid_utf8(b))) || ((
                    is_get_verb(elems[0]) || is_set_verb(elems[0])) && elems.len() >= 2 && (
                    elems[1] matches FrameView::Bulk(b) && !valid_utf8(b))),
                }
            }),
    {
        let ghost elems = frame@->Array_0;
        let mut it = frame.into_iterator();
        let name = match it.next_string() {
            Ok(s) => s,
            Err(e) => {
                return Err(CommandError::BadArgument(e));
            },
        };
        proof {
            if let FrameView::Bulk(b) = elems[0] {
                vstd::utf8::decode_utf8_encode_utf8(b);
            }
            assert(encode_utf8(name@) == encode_utf8(text_arg(elems[0])->0));
        }
        let gv = get_verb_bytes();
        let sv = set_verb_bytes();
        if ascii_lower_eq(name.as_str().as_bytes(), gv.as_slice()) {
            match Get::from_frame(&mut it) {
                Ok(g) => {
                    proof {
                        assert(elems.drop_first()[0] == elems[1]);
                    }
                    Ok(Request::Get(g))
                },
                Err(e) => Err(CommandError::BadArgument(e)),
            }
        } else if ascii_lower_eq(name.as_str().as_bytes(), sv.as_slice()) {
            match SetCommand::from_frame(&mut it) {
                Ok(s) => {
                    proof {
                        assert(elems.drop_first()[0] == elems[1]);
                        assert(elems.drop_first()[1] == elems[2]);
                    }
                    Ok(Request::SetCommand(s))
                },
                Err(e) => Err(CommandError::BadArgument(e)),
            }
        } else {
            Err(CommandError::UnknownCommand)
        }
    }
}

} // verus!
