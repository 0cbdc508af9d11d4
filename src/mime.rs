//! The closed set of media types that the renderer emits, and how file
//! extensions and content-type strings map onto it.

use vstd::prelude::*;
use crate::text::{chars_of, chars_eq, string_of};

verus! {

#[derive(Debug, Clone, Copy, PartialEq, Eq, Structural)]
pub enum Mime {
    Gif,
    Jpeg,
    Png,
    Svg,
    Webp,
    Css,
    JavaScript,
    Json,
    Plain,
    Html,
}

/// The media type named by a bare file extension; anything else is plain text.
pub open spec fn mime_of_extension(s: Seq<char>) -> Mime {
    if s == "gif"@ {
        Mime::Gif
    } else if s == "jpeg"@ {
        Mime::Jpeg
    } else if s == "png"@ {
        Mime::Png
    } else if s == "svg"@ {
        Mime::Svg
    } else if s == "webp"@ {
        Mime::Webp
    } else if s == "css"@ {
        Mime::Css
    } else if s == "js"@ {
        Mime::JavaScript
    } else if s == "json"@ {
        Mime::Json
    } else if s == "html"@ {
        Mime::Html
    } else {
        Mime::Plain
    }
}

/// The media type named by a full content-type string (the strings that
/// `content_type_of` gives, and `text/js`); anything else is plain text.
pub open spec fn mime_of_content_type(s: Seq<char>) -> Mime {
    if s == "image/gif"@ {
        Mime::Gif
    } else if s == "image/jpeg"@ {
        Mime::Jpeg
    } else if s == "image/png"@ {
        Mime::Png
    } else if s == "image/svg+xml"@ {
        Mime::Svg
    } else if s == "image/webp"@ {
        Mime::Webp
    } else if s == "text/css"@ {
        Mime::Css
    } else if s == "text/javascript"@ || s == "text/js"@ {
        Mime::JavaScript
    } else if s == "application/json"@ {
        Mime::Json
    } else if s == "text/html"@ {
        Mime::Html
    } else {
        Mime::Plain
    }
}

/// The short lower-case name of each media type.
pub open spec fn mime_name(m: Mime) -> Seq<char> {
    match m {
        Mime::Gif => "gif"@,
        Mime::Jpeg => "jpeg"@,
        Mime::Png => "png"@,
        Mime::Webp => "webp"@,
        Mime::Svg => "svg"@,
        Mime::Css => "css"@,
        Mime::JavaScript => "javascript"@,
        Mime::Json => "json"@,
        Mime::Plain => "plain"@,
        Mime::Html => "html"@,
    }
}

/// The content-type string that a response declares for each media type.
pub open spec fn content_type_of(m: Mime) -> Seq<char> {
    match m {
        Mime::Gif | Mime::Jpeg | Mime::Png | Mime::Webp => "image/"@ + mime_name(m),
        Mime::Svg => "image/svg+xml"@,
        Mime::Css | Mime::JavaScript | Mime::Plain | Mime::Html => "text/"@ + mime_name(m),
        Mime::Json => "application/"@ + mime_name(m),
    }
}

impl Mime {
    /// The media type of a file extension such as `png`.
    pub fn from_extension(s: &str) -> (r: Mime)
        ensures
            r == mime_of_extension(s@),
    {
        let c = chars_of(s);
        if chars_eq(&c, &chars_of("gif")) {
            Mime::Gif
        } else if chars_eq(&c, &chars_of("jpeg")) {
            Mime::Jpeg
        } else if chars_eq(&c, &chars_of("png")) {
            Mime::Png
        } else if chars_eq(&c, &chars_of("svg")) {
            Mime::Svg
        } else if chars_eq(&c, &chars_of("webp")) {
            Mime::Webp
        } else if chars_eq(&c, &chars_of("css")) {
            Mime::Css
        } else if chars_eq(&c, &chars_of("js")) {
            Mime::JavaScript
        } else if chars_eq(&c, &chars_of("json")) {
            Mime::Json
        } else if chars_eq(&c, &chars_of("html")) {
            Mime::Html
        } else {
            Mime::Plain
        }
    }

    /// The media type of a content-type string such as `image/png`.
    pub fn from_content_type(s: &str) -> (r: Mime)
        ensures
            r == mime_of_content_type(s@),
    {
        let c = chars_of(s);
        if chars_eq(&c, &chars_of("image/gif")) {
            Mime::Gif
        } else if chars_eq(&c, &chars_of("image/jpeg")) {
            Mime::Jpeg
        } else if chars_eq(&c, &chars_of("image/png")) {
            Mime::Png
        } else if chars_eq(&c, &chars_of("image/svg+xml")) {
            Mime::Svg
        } else if chars_eq(&c, &chars_of("image/webp")) {
            Mime::Webp
        } else if chars_eq(&c, &chars_of("text/css")) {
            Mime::Css
        } else if chars_eq(&c, &chars_of("text/javascript")) || chars_eq(&c, &chars_of("text/js")) {
            Mime::JavaScript
        } else if chars_eq(&c, &chars_of("application/json")) {
            Mime::Json
        } else if chars_eq(&c, &chars_of("text/html")) {
            Mime::Html
        } else {
            Mime::Plain
        }
    }

    /// The short lower-case name, such as `javascript`.
    pub fn name(&self) -> (r: &'static str)
        ensures
            r@ == mime_name(*self),
    {
        match self {
            Mime::Gif => "gif",
            Mime::Jpeg => "jpeg",
            Mime::Png => "png",
            Mime::Webp => "webp",
            Mime::Svg => "svg",
            Mime::Css => "css",
            Mime::JavaScript => "javascript",
            Mime::Json => "json",
            Mime::Plain => "plain",
            Mime::Html => "html",
        }
    }

    /// The characters of the content-type string, such as `image/png`.
    pub fn content_type_chars(&self) -> (r: Vec<char>)
        ensures
            r@ == content_type_of(*self),
    {
        let mut r: Vec<char> = match self {
            Mime::Gif | Mime::Jpeg | Mime::Png | Mime::Webp => chars_of("image/"),
            Mime::Svg => {
                return chars_of("image/svg+xml");
            },
            Mime::Css | Mime::JavaScript | Mime::Plain | Mime::Html => chars_of("text/"),
            Mime::Json => chars_of("application/"),
        };
        let mut name = chars_of(self.name());
        r.append(&mut name);
        r
    }

    /// The content-type string, such as `image/png`.
    pub fn to_string(&self) -> (r: String)
        ensures
            r@ == content_type_of(*self),
    {
        let c = self.content_type_chars();
        string_of(&c)
    }
}

impl Default for Mime {
    fn default() -> (r: Mime)
        ensures
            r == Mime::Plain,
    {
        Mime::Plain
    }
}

impl From<&str> for Mime {
    fn from(s: &str) -> (r: Mime) {
        Mime::from_extension(s)
    }
}

impl vstd::std_specs::convert::FromSpecImpl<&str> for Mime {
    open spec fn obeys_from_spec() -> bool {
        true
    }

    open spec fn from_spec(s: &str) -> Mime {
        mime_of_extension(s@)
    }
}

impl std::str::FromStr for Mime {
    type Err = ();

    fn from_str(s: &str) -> Result<Mime, ()> {
        Ok(Mime::from_content_type(s))
    }
}

} // verus!
