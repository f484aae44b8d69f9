use vstd::prelude::*;

verus! {

/// What a captured clipboard item holds.
#[derive(Clone, Copy, Debug, PartialEq, Eq, Structural)]
pub enum ContentType {
    Text,
    Image,
    File,
}

impl ContentType {
    /// The stable wire code of the kind.
    pub open spec fn code(self) -> i32 {
        match self {
            ContentType::Text => 0,
            ContentType::Image => 1,
            ContentType::File => 2,
        }
    }

    /// The printable name of the kind.
    pub open spec fn name(self) -> Seq<char> {
        match self {
            ContentType::Text => "Text"@,
            ContentType::Image => "Image"@,
            ContentType::File => "File"@,
        }
    }

    /// Encodes the kind as its wire code: `Text` is 0, `Image` 1, `File` 2.
    pub fn to_i32(&self) -> (r: i32)
        ensures
            r == self.code(),
    {
        match self {
            ContentType::Text => 0,
            ContentType::Image => 1,
            ContentType::File => 2,
        }
    }

    /// Decodes a wire code; codes outside 0..=2 name no kind.
    pub fn from_i32(code: i32) -> (r: Option<ContentType>)
        ensures
            r.is_some() <==> 0 <= code <= 2,
            r matches Some(k) ==> k.code() == code,
    {
        if code == 0 {
            Some(ContentType::Text)
        } else if code == 1 {
            Some(ContentType::Image)
        } else if code == 2 {
            Some(ContentType::File)
        } else {
            None
        }
    }

    /// The kind's name: `"Text"`, `"Image"` or `"File"`.
    pub fn to_string(&self) -> (r: String)
        ensures
            r@ == self.name(),
    {
        match self {
            ContentType::Text => String::from_str("Text"),
            ContentType::Image => String::from_str("Image"),
            ContentType::File => String::from_str("File"),
        }
    }
}

} // verus!
