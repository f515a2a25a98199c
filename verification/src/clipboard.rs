//! The interface of a clipboard.
use vstd::prelude::*;
use vstd::string::*;
use vstd::utf8::*;

use crate::data;
use crate::data::ClipboardData;
use crate::error::{MyError, MyResult};

verus! {

/// The text of a payload, or the empty text when it has none.
pub open spec fn text_or_empty(entries: Seq<data::EntryView>) -> Seq<char> {
    match data::text_of(entries) {
        Some(t) => t,
        None => Seq::empty(),
    }
}

/// The text of a payload, or the empty text when it has none.
pub fn text_or_default(payload: &ClipboardData) -> (r: String)
    ensures
        r@ == text_or_empty(payload@),
{
    match payload.text() {
        Some(t) => t,
        None => String::new(),
    }
}

/// The payload of a backend that only knows text: nothing when there is none.
pub open spec fn plain_payload(t: Option<Seq<char>>) -> Seq<data::EntryView> {
    match t {
        Some(s) => if s.len() == 0 {
            Seq::empty()
        } else {
            data::text_payload(s)
        },
        None => Seq::empty(),
    }
}

/// The payload of a backend that only knows text: nothing when there is none.
pub fn payload_of_text(t: Option<String>) -> (r: ClipboardData)
    ensures
        r@ == plain_payload(
            match t {
                Some(s) => Some(s@),
                None => None,
            },
        ),
{
    match t {
        Some(s) => if s.as_str().is_empty() {
            ClipboardData::empty()
        } else {
            ClipboardData::from_text(s.as_str())
        },
        None => ClipboardData::empty(),
    }
}

pub trait Clipboard: std::fmt::Debug {
    fn display(&self) -> String;

    /// Fetch all available MIME-type entries from this clipboard.
    fn get_data(&self) -> MyResult<ClipboardData>;

    /// Write a full `ClipboardData` payload to this clipboard.
    fn set_data(&self, data: &ClipboardData) -> MyResult<()>;

    // --- Convenience text helpers (delegate to get_data / set_data) ---
    /// The text of what `get_data` fetched.
    fn get(&self) -> (r: MyResult<String>)
        default_ensures
            r matches Ok(t) ==> exists|d: ClipboardData| #[trigger]
                call_ensures(Self::get_data, (self,), Ok::<ClipboardData, MyError>(d)) && t@
                    == text_or_empty(d@),
            r matches Err(e) ==> call_ensures(
                Self::get_data,
                (self,),
                Err::<ClipboardData, MyError>(e),
            ),
    {
        match self.get_data() {
            Ok(d) => Ok(text_or_default(&d)),
            Err(e) => Err(e),
        }
    }

    /// Writes a plain-text payload with `set_data`.
    fn set(&self, value: &str) -> (r: MyResult<()>)
        default_ensures
            exists|d: ClipboardData| #[trigger]
                call_ensures(Self::set_data, (self, &d), r) && d@ == data::text_payload(value@),
    {
        let payload = ClipboardData::from_text(value);
        self.set_data(&payload)
    }

    fn should_poll(&self) -> (r: bool)
        default_ensures
            r,
    {
        true
    }

    /// Lower rank = preferred when deduplicating identical clipboards.
    fn rank(&self) -> (r: u8)
        default_ensures
            r == 100,
    {
        100
    }
}

impl<T: Clipboard + ?Sized> Clipboard for Box<T> {
    fn display(&self) -> (r: String)
        ensures
            call_ensures(T::display, (&**self,), r),
    {
        (**self).display()
    }

    fn get_data(&self) -> (r: MyResult<ClipboardData>)
        ensures
            call_ensures(T::get_data, (&**self,), r),
    {
        (**self).get_data()
    }

    fn set_data(&self, data: &ClipboardData) -> (r: MyResult<()>)
        ensures
            call_ensures(T::set_data, (&**self, data), r),
    {
        (**self).set_data(data)
    }

    fn should_poll(&self) -> (r: bool)
        ensures
            call_ensures(T::should_poll, (&**self,), r),
    {
        (**self).should_poll()
    }

    fn rank(&self) -> (r: u8)
        ensures
            call_ensures(T::rank, (&**self,), r),
    {
        (**self).rank()
    }
}

/// Whether writing `payload` to `c` can have ended so.
pub open spec fn can_write<C: Clipboard>(
    c: &C,
    payload: Seq<data::EntryView>,
    result: MyResult<()>,
) -> bool {
    exists|d: ClipboardData| #[trigger]
        call_ensures(C::set_data, (c, &d), result) && d@ == payload
}

/// The text of a payload, whole, or nothing.
pub proof fn law_text_or_nothing(entries: Seq<data::EntryView>)
    ensures
        data::text_of(entries) matches Some(t) ==> text_or_empty(entries) == t,
        data::text_of(entries) is None ==> text_or_empty(entries).len() == 0,
{
}

/// A backend that only knows text gives an empty payload for no text, and
/// otherwise one of four entries that all hold the text, encoded.
pub proof fn law_payload_of_plain_text(t: Option<Seq<char>>)
    ensures
        plain_payload(t).len() == if t is Some && t->0.len() > 0 {
            4int
        } else {
            0
        },
        forall|i: int|
            0 <= i < plain_payload(t).len() ==> (#[trigger] plain_payload(t)[i]).data
                == encode_utf8(t->0),
{
}

/// A write hands on the whole payload.
pub proof fn law_write_hands_on_the_payload<C: Clipboard>(
    c: &C,
    payload: Seq<data::EntryView>,
    result: MyResult<()>,
)
    requires
        can_write(c, payload, result),
    ensures
        exists|d: ClipboardData| #[trigger]
            call_ensures(C::set_data, (c, &d), result) && d@ == payload,
{
}

} // verus!
