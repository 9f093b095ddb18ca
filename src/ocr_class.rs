//! The semantic classes of OCR elements and their names.

use vstd::prelude::*;
use crate::text::{chars_of, same_chars};

verus! {

/// The semantic role of an OCR element.
#[derive(Debug, Clone, Copy, PartialEq, Eq, Structural)]
pub enum OCRClass {
    Page,
    CArea,
    Par,
    Line,
    Word,
    Separator,
    Photo,
    Caption,
}

/// The error of reading a class name that names no OCR class.
#[derive(Debug, Clone, Copy, PartialEq, Eq, Structural)]
pub struct ParseOCRError;

/// The class name that marks an element of class `c` in a document.
pub open spec fn class_name(c: OCRClass) -> Seq<char> {
    match c {
        OCRClass::Page => "ocr_page"@,
        OCRClass::CArea => "ocr_carea"@,
        OCRClass::Par => "ocr_par"@,
        OCRClass::Line => "ocr_line"@,
        OCRClass::Word => "ocrx_word"@,
        OCRClass::Separator => "ocr_separator"@,
        OCRClass::Photo => "ocr_photo"@,
        OCRClass::Caption => "ocr_caption"@,
    }
}

/// The name shown to a user for class `c`.
pub open spec fn user_name(c: OCRClass) -> Seq<char> {
    match c {
        OCRClass::Page => "Page"@,
        OCRClass::CArea => "Area"@,
        OCRClass::Par => "Par"@,
        OCRClass::Line => "Line"@,
        OCRClass::Word => "Word"@,
        OCRClass::Separator => "Separator"@,
        OCRClass::Photo => "Photo"@,
        OCRClass::Caption => "Caption"@,
    }
}

/// The family of identifiers that exported elements of class `c` draw from:
/// areas, separators and photos share "block", lines and captions share
/// "line".
pub open spec fn id_family(c: OCRClass) -> Seq<char> {
    match c {
        OCRClass::Page => "page"@,
        OCRClass::CArea | OCRClass::Separator | OCRClass::Photo => "block"@,
        OCRClass::Par => "par"@,
        OCRClass::Line | OCRClass::Caption => "line"@,
        OCRClass::Word => "word"@,
    }
}

/// The class that the class name `s` marks.
pub open spec fn class_named(s: Seq<char>) -> Option<OCRClass> {
    if s == "ocr_page"@ {
        Some(OCRClass::Page)
    } else if s == "ocr_carea"@ {
        Some(OCRClass::CArea)
    } else if s == "ocr_line"@ {
        Some(OCRClass::Line)
    } else if s == "ocr_par"@ {
        Some(OCRClass::Par)
    } else if s == "ocrx_word"@ {
        Some(OCRClass::Word)
    } else if s == "ocr_photo"@ {
        Some(OCRClass::Photo)
    } else if s == "ocr_separator"@ {
        Some(OCRClass::Separator)
    } else if s == "ocr_caption"@ {
        Some(OCRClass::Caption)
    } else {
        None
    }
}

/// Reading the class name of a class gives that class back.
pub proof fn lemma_class_name_round_trip(c: OCRClass)
    ensures
        class_named(class_name(c)) == Some(c),
{
    reveal_strlit("ocr_page");
    reveal_strlit("ocr_carea");
    reveal_strlit("ocr_line");
    reveal_strlit("ocr_par");
    reveal_strlit("ocrx_word");
    reveal_strlit("ocr_photo");
    reveal_strlit("ocr_separator");
    reveal_strlit("ocr_caption");
    match c {
        OCRClass::Page => {

        },
        OCRClass::CArea => {
            assert("ocr_carea"@.len() != "ocr_page"@.len());
        },
        OCRClass::Line => {
            assert("ocr_line"@[4] != "ocr_page"@[4]);
            assert("ocr_line"@.len() != "ocr_carea"@.len());
        },
        OCRClass::Par => {
            assert("ocr_par"@.len() != "ocr_page"@.len());
            assert("ocr_par"@.len() != "ocr_carea"@.len());
            assert("ocr_par"@.len() != "ocr_line"@.len());
        },
        OCRClass::Word => {
            assert("ocrx_word"@.len() != "ocr_page"@.len());
            assert("ocrx_word"@[4] != "ocr_carea"@[4]);
            assert("ocrx_word"@.len() != "ocr_line"@.len());
            assert("ocrx_word"@.len() != "ocr_par"@.len());
        },
        OCRClass::Photo => {
            assert("ocr_photo"@.len() != "ocr_page"@.len());
            assert("ocr_photo"@[4] != "ocr_carea"@[4]);
            assert("ocr_photo"@.len() != "ocr_line"@.len());
            assert("ocr_photo"@.len() != "ocr_par"@.len());
            assert("ocr_photo"@[4] != "ocrx_word"@[4]);
        },
        OCRClass::Separator => {
            assert("ocr_separator"@.len() != "ocr_page"@.len());
            assert("ocr_separator"@.len() != "ocr_carea"@.len());
            assert("ocr_separator"@.len() != "ocr_line"@.len());
            assert("ocr_separator"@.len() != "ocr_par"@.len());
            assert("ocr_separator"@.len() != "ocrx_word"@.len());
            assert("ocr_separator"@.len() != "ocr_photo"@.len());
        },
        OCRClass::Caption => {
            assert("ocr_caption"@.len() != "ocr_page"@.len());
            assert("ocr_caption"@.len() != "ocr_carea"@.len());
            assert("ocr_caption"@.len() != "ocr_line"@.len());
            assert("ocr_caption"@.len() != "ocr_par"@.len());
            assert("ocr_caption"@.len() != "ocrx_word"@.len());
            assert("ocr_caption"@.len() != "ocr_photo"@.len());
            assert("ocr_caption"@.len() != "ocr_separator"@.len());
        },
    }
}

fn text(s: &str) -> (r: String)
    ensures
        r@ == s@,
{
    s.to_owned()
}

impl OCRClass {
    /// Every class, in a fixed order.
    pub fn variants() -> (r: Vec<OCRClass>)
        ensures
            r@ == seq![
                OCRClass::Page,
                OCRClass::CArea,
                OCRClass::Par,
                OCRClass::Line,
                OCRClass::Word,
                OCRClass::Separator,
                OCRClass::Photo,
                OCRClass::Caption,
            ],
    {
        vec![
            OCRClass::Page,
            OCRClass::CArea,
            OCRClass::Par,
            OCRClass::Line,
            OCRClass::Word,
            OCRClass::Separator,
            OCRClass::Photo,
            OCRClass::Caption,
        ]
    }

    /// The name shown to a user.
    pub fn to_user_str(&self) -> (r: String)
        ensures
            r@ == user_name(*self),
    {
        match self {
            Self::CArea => text("Area"),
            Self::Page => text("Page"),
            Self::Line => text("Line"),
            Self::Par => text("Par"),
            Self::Word => text("Word"),
            Self::Photo => text("Photo"),
            Self::Separator => text("Separator"),
            Self::Caption => text("Caption"),
        }
    }

    /// The identifier family used when exporting.
    pub fn to_id_str(&self) -> (r: String)
        ensures
            r@ == id_family(*self),
    {
        match self {
            Self::CArea | Self::Separator | Self::Photo => text("block"),
            Self::Page => text("page"),
            Self::Line | Self::Caption => text("line"),
            Self::Par => text("par"),
            Self::Word => text("word"),
        }
    }

    /// The class name that marks this class in a document.
    pub fn to_string(&self) -> (r: String)
        ensures
            r@ == class_name(*self),
    {
        match self {
            Self::CArea => text("ocr_carea"),
            Self::Page => text("ocr_page"),
            Self::Line => text("ocr_line"),
            Self::Par => text("ocr_par"),
            Self::Word => text("ocrx_word"),
            Self::Photo => text("ocr_photo"),
            Self::Separator => text("ocr_separator"),
            Self::Caption => text("ocr_caption"),
        }
    }

    /// The class that a class name marks.
    pub fn from_class_name(s: &str) -> (r: Result<OCRClass, ParseOCRError>)
        ensures
            match r {
                Ok(c) => class_named(s@) == Some(c),
                Err(_) => class_named(s@) is None,
            },
    {
        let v = chars_of(s);
        Self::from_chars(&v)
    }

    /// The class that the characters of a class name mark.
    pub fn from_chars(v: &Vec<char>) -> (r: Result<OCRClass, ParseOCRError>)
        ensures
            match r {
                Ok(c) => class_named(v@) == Some(c),
                Err(_) => class_named(v@) is None,
            },
    {
        if same_chars(v, &chars_of("ocr_page")) {
            Ok(Self::Page)
        } else if same_chars(v, &chars_of("ocr_carea")) {
            Ok(Self::CArea)
        } else if same_chars(v, &chars_of("ocr_line")) {
            Ok(Self::Line)
        } else if same_chars(v, &chars_of("ocr_par")) {
            Ok(Self::Par)
        } else if same_chars(v, &chars_of("ocrx_word")) {
            Ok(Self::Word)
        } else if same_chars(v, &chars_of("ocr_photo")) {
            Ok(Self::Photo)
        } else if same_chars(v, &chars_of("ocr_separator")) {
            Ok(Self::Separator)
        } else if same_chars(v, &chars_of("ocr_caption")) {
            Ok(Self::Caption)
        } else {
            Err(ParseOCRError)
        }
    }
}

impl Default for OCRClass {
    fn default() -> (r: OCRClass)
        ensures
            r == OCRClass::Page,
    {
        OCRClass::Page
    }
}

impl std::str::FromStr for OCRClass {
    type Err = ParseOCRError;

    fn from_str(s: &str) -> (r: Result<OCRClass, ParseOCRError>)
        ensures
            match r {
                Ok(c) => class_named(s@) == Some(c),
                Err(_) => class_named(s@) is None,
            },
    {
        OCRClass::from_class_name(s)
    }
}

} // verus!
