//! Fonts that drawings may use: which files are accepted, and which characters they lack.
use resvg::usvg::fontdb::Database;
use skrifa::raw::TableProvider;
use skrifa::{FontRef, MetadataProvider};
use vstd::prelude::*;

use crate::error::{AtxError, Fault};
use crate::text::{cat2, cat3, cat4, dec, decimal, same_text};

verus! {

/// The most bytes of a font asset, 32 MiB.
pub const MAX_FONT_BYTES: u64 = 33_554_432;

/// What is known of a font asset.
#[derive(Clone, Debug)]
pub struct FontAssetInfo {
    /// The names of its families, each once, in the order of its faces.
    pub families: Vec<String>,
    /// How many glyphs its first face has.
    pub glyph_count: u16,
}

/// The texts of strings.
pub open spec fn texts(v: Seq<String>) -> Seq<Seq<char>> {
    Seq::new(v.len(), |i: int| v[i]@)
}

/// What skrifa finds at the head of a font: that it cannot be parsed, or what it says of its
/// `maxp` table: that there is none of use, or how many glyphs it declares.
pub uninterp spec fn font_head(bytes: Seq<u8>) -> Result<Result<u16, Seq<char>>, Seq<char>>;

/// The names of the families of each face that fontdb finds in a font.
pub uninterp spec fn font_faces(bytes: Seq<u8>) -> Seq<Seq<Seq<char>>>;

/// Whether skrifa maps a character to a glyph in the first face of a font.
pub uninterp spec fn glyph_known(bytes: Seq<u8>, c: char) -> bool;

/// The texts of a font's head.
pub open spec fn head_texts(head: Result<Result<u16, String>, String>) -> Result<
    Result<u16, Seq<char>>,
    Seq<char>,
> {
    match head {
        Ok(Ok(n)) => Ok(Ok(n)),
        Ok(Err(m)) => Ok(Err(m@)),
        Err(m) => Err(m@),
    }
}

/// The texts of the families of each face.
pub open spec fn face_texts(faces: Seq<Vec<String>>) -> Seq<Seq<Seq<char>>> {
    Seq::new(faces.len(), |i: int| texts(faces[i]@))
}

/// `skrifa::FontRef::new` and `num_glyphs` of the table that `maxp` gives. What they say
/// depends on the bytes alone; it is named `font_head` here, with errors in the words of
/// their `Display`.
#[verifier::external_body]
fn read_font_head(bytes: &[u8]) -> (r: Result<Result<u16, String>, String>)
    ensures
        head_texts(r) == font_head(bytes@),
{
    let font = FontRef::new(bytes).map_err(|e| e.to_string())?;
    Ok(font.maxp().map(|t| t.num_glyphs()).map_err(|e| e.to_string()))
}

/// `fontdb::Database::load_font_data` on an empty database, and the families of the faces
/// that are then in it. They depend on the bytes alone and are named `font_faces` here.
#[verifier::external_body]
fn read_faces(bytes: &[u8]) -> (r: Vec<Vec<String>>)
    ensures
        face_texts(r@) == font_faces(bytes@),
{
    let mut db = Database::new();
    db.load_font_data(bytes.to_vec());
    db.faces().map(|face| face.families.iter().map(|(name, _)| name.clone()).collect()).collect()
}

/// `skrifa::FontRef::from_index` and `map` of its character map. The answer depends on the
/// bytes and the character alone; it is named `glyph_known` here.
#[verifier::external_body]
fn has_glyph(bytes: &[u8], c: char) -> (r: bool)
    ensures
        r == glyph_known(bytes@, c),
{
    FontRef::from_index(bytes, 0).is_ok_and(|font| font.charmap().map(c).is_some())
}

/// The signatures of single fonts: `00 01 00 00`, `OTTO` and `true`.
pub open spec fn is_font_signature(s: Seq<u8>) -> bool {
    s == seq![0u8, 1u8, 0u8, 0u8] || s == seq![79u8, 84u8, 84u8, 79u8] || s == seq![
        116u8,
        114u8,
        117u8,
        101u8,
    ]
}

/// The signature of a collection of fonts, `ttcf`.
pub open spec fn is_collection_signature(s: Seq<u8>) -> bool {
    s == seq![116u8, 116u8, 99u8, 102u8]
}

/// A list of names with another one, where it is not there yet.
pub open spec fn with_name(names: Seq<Seq<char>>, name: Seq<char>) -> Seq<Seq<char>> {
    if names.contains(name) {
        names
    } else {
        names.push(name)
    }
}

/// A list of names with those of a face.
pub open spec fn with_face(names: Seq<Seq<char>>, face: Seq<Seq<char>>) -> Seq<Seq<char>>
    decreases face.len(),
{
    if face.len() == 0 {
        names
    } else {
        with_name(with_face(names, face.drop_last()), face.last())
    }
}

/// The names of faces, each once.
pub open spec fn family_names(faces: Seq<Seq<Seq<char>>>) -> Seq<Seq<char>>
    decreases faces.len(),
{
    if faces.len() == 0 {
        Seq::empty()
    } else {
        with_face(family_names(faces.drop_last()), faces.last())
    }
}

/// The family that stands for every generic one: the first of the first face, or Roboto where
/// there is none.
pub open spec fn generic_name(faces: Seq<Seq<Seq<char>>>) -> Seq<char> {
    if faces.len() > 0 && faces[0].len() > 0 {
        faces[0][0]
    } else {
        "Roboto"@
    }
}

/// The family that stands for every generic one, from the names of the faces of the first
/// font.
pub fn generic_family(faces: &Vec<Vec<String>>) -> (r: String)
    ensures
        r@ == generic_name(face_texts(faces@)),
{
    if faces.len() > 0 && faces[0].len() > 0 {
        assert(face_texts(faces@)[0][0] == faces@[0]@[0]@);
        faces[0][0].clone()
    } else {
        "Roboto".to_owned()
    }
}

/// The bytes of fonts.
pub open spec fn font_bytes(fonts: Seq<Vec<u8>>) -> Seq<Seq<u8>> {
    Seq::new(fonts.len(), |i: int| fonts[i]@)
}

/// The family that stands for every generic one among fonts: that of the first.
pub open spec fn family_of(fonts: Seq<Seq<u8>>) -> Seq<char> {
    if fonts.len() > 0 {
        generic_name(font_faces(fonts[0]))
    } else {
        generic_name(seq![])
    }
}

/// The family that stands for every generic one among fonts: that of the first.
pub fn text_family(fonts: &Vec<Vec<u8>>) -> (r: String)
    ensures
        r@ == family_of(font_bytes(fonts@)),
{
    if fonts.len() > 0 {
        let faces: Vec<Vec<String>> = read_faces(fonts[0].as_slice());
        generic_family(&faces)
    } else {
        let faces: Vec<Vec<String>> = Vec::new();
        assert(face_texts(faces@) =~= seq![]);
        generic_family(&faces)
    }
}

/// What is wrong with a font asset.
pub open spec fn font_fault(bytes: Seq<u8>) -> Option<Seq<char>> {
    if bytes.len() > MAX_FONT_BYTES {
        Some(
            "the font is "@ + decimal(bytes.len())
                + " bytes, over the 33554432 byte limit for a font asset"@,
        )
    } else if bytes.len() < 4 {
        Some("the file is too short to be a font (expected a TrueType or OpenType header)"@)
    } else if is_collection_signature(bytes.take(4)) {
        Some(
            "this is a TrueType/OpenType collection (.ttc); font collections are not supported; extract one face and import that single font file"@,
        )
    } else if !is_font_signature(bytes.take(4)) {
        Some(
            "the file does not start with a TrueType or OpenType signature (expected 00 01 00 00, \"OTTO\" or \"true\"); .woff / .woff2 are not supported"@,
        )
    } else {
        match font_head(bytes) {
            Err(m) => Some("the font is not parseable: "@ + m),
            Ok(Err(m)) => Some("the font has no usable maxp table: "@ + m),
            Ok(Ok(n)) => if n == 0 {
                Some(
                    "the font declares no glyphs (maxp.numGlyphs is 0), so it cannot draw any character"@,
                )
            } else if family_names(font_faces(bytes)).len() == 0 {
                Some(
                    "the font has no family name in its name table, so it cannot be referenced from a font-family in the SVG"@,
                )
            } else {
                None
            },
        }
    }
}

fn holds_name(names: &Vec<String>, name: &str) -> (r: bool)
    ensures
        r == texts(names@).contains(name@),
{
    let mut i: usize = 0;
    while i < names.len()
        invariant
            i <= names@.len(),
            forall|k: int| 0 <= k < i ==> #[trigger] texts(names@)[k] != name@,
        decreases names.len() - i,
    {
        if same_text(names[i].as_str(), name) {
            assert(texts(names@)[i as int] == name@);
            return true;
        }
        i = i + 1;
    }
    false
}

/// Adds the names of a face.
fn add_face(names: &mut Vec<String>, face: &Vec<String>)
    ensures
        texts(final(names)@) == with_face(texts(old(names)@), texts(face@)),
{
    let ghost first = texts(names@);
    let mut i: usize = 0;
    assert(texts(face@).take(0) =~= Seq::empty());
    while i < face.len()
        invariant
            i <= face@.len(),
            texts(names@) == with_face(first, texts(face@).take(i as int)),
        decreases face.len() - i,
    {
        let name: &str = face[i].as_str();
        let ghost before = names@;
        if !holds_name(names, name) {
            names.push(name.to_owned());
            assert(texts(names@) =~= texts(before).push(name@));
        }
        proof {
            let part = texts(face@).take(i + 1);
            assert(part.drop_last() =~= texts(face@).take(i as int));
            assert(part.last() == name@);
        }
        i = i + 1;
    }
    assert(texts(face@).take(i as int) =~= texts(face@));
}

/// The names of faces, each once.
fn collect_names(faces: &Vec<Vec<String>>) -> (r: Vec<String>)
    ensures
        texts(r@) == family_names(face_texts(faces@)),
{
    let mut names: Vec<String> = Vec::new();
    let mut i: usize = 0;
    assert(face_texts(faces@).take(0) =~= Seq::empty());
    assert(texts(names@) =~= Seq::empty());
    while i < faces.len()
        invariant
            i <= faces@.len(),
            texts(names@) == family_names(face_texts(faces@).take(i as int)),
        decreases faces.len() - i,
    {
        add_face(&mut names, &faces[i]);
        proof {
            let part = face_texts(faces@).take(i + 1);
            assert(part.drop_last() =~= face_texts(faces@).take(i as int));
            assert(part.last() == texts(faces@[i as int]@));
        }
        i = i + 1;
    }
    assert(face_texts(faces@).take(i as int) =~= face_texts(faces@));
    names
}

/// Checks that bytes are a font asset: a single TrueType or OpenType font with glyphs and a
/// name.
pub fn validate_font_asset(bytes: &[u8]) -> (r: Result<FontAssetInfo, String>)
    ensures
        match r {
            Ok(info) => {
                &&& font_fault(bytes@) is None
                &&& texts(info.families@) == family_names(font_faces(bytes@))
                &&& font_head(bytes@) == Ok::<Result<u16, Seq<char>>, Seq<char>>(
                    Ok(info.glyph_count),
                )
            },
            Err(m) => font_fault(bytes@) == Some(m@),
        },
{
    if bytes.len() as u64 > MAX_FONT_BYTES {
        let count: String = dec(bytes.len() as u64);
        return Err(
            cat3(
                "the font is ",
                count.as_str(),
                " bytes, over the 33554432 byte limit for a font asset",
            ),
        );
    }
    if bytes.len() < 4 {
        return Err(
            "the file is too short to be a font (expected a TrueType or OpenType header)".to_owned(),
        );
    }
    let (a, b, c, d): (u8, u8, u8, u8) = (bytes[0], bytes[1], bytes[2], bytes[3]);
    assert(bytes@.take(4) =~= seq![a, b, c, d]);
    proof {
        let s = seq![a, b, c, d];
        assert(s[0] == a && s[1] == b && s[2] == c && s[3] == d);
        assert(is_collection_signature(s) == (a == 116 && b == 116 && c == 99 && d == 102)) by {
            if a == 116 && b == 116 && c == 99 && d == 102 {
                assert(s =~= seq![116u8, 116u8, 99u8, 102u8]);
            }
        }
        let single = (a == 0 && b == 1 && c == 0 && d == 0) || (a == 79 && b == 84 && c == 84 && d
            == 79) || (a == 116 && b == 114 && c == 117 && d == 101);
        assert(is_font_signature(s) == single) by {
            if a == 0 && b == 1 && c == 0 && d == 0 {
                assert(s =~= seq![0u8, 1u8, 0u8, 0u8]);
            }
            if a == 79 && b == 84 && c == 84 && d == 79 {
                assert(s =~= seq![79u8, 84u8, 84u8, 79u8]);
            }
            if a == 116 && b == 114 && c == 117 && d == 101 {
                assert(s =~= seq![116u8, 114u8, 117u8, 101u8]);
            }
        }
    }
    if a == 116 && b == 116 && c == 99 && d == 102 {
        return Err(
            "this is a TrueType/OpenType collection (.ttc); font collections are not supported; extract one face and import that single font file".to_owned(),
        );
    }
    let single: bool = (a == 0 && b == 1 && c == 0 && d == 0) || (a == 79 && b == 84 && c == 84 && d
        == 79) || (a == 116 && b == 114 && c == 117 && d == 101);
    if !single {
        return Err(
            "the file does not start with a TrueType or OpenType signature (expected 00 01 00 00, \"OTTO\" or \"true\"); .woff / .woff2 are not supported".to_owned(),
        );
    }
    let glyph_count: u16 = match read_font_head(bytes) {
        Err(m) => {
            return Err(cat2("the font is not parseable: ", m.as_str()));
        },
        Ok(Err(m)) => {
            return Err(cat2("the font has no usable maxp table: ", m.as_str()));
        },
        Ok(Ok(n)) => n,
    };
    if glyph_count == 0 {
        return Err(
            "the font declares no glyphs (maxp.numGlyphs is 0), so it cannot draw any character".to_owned(),
        );
    }
    let families: Vec<String> = collect_names(&read_faces(bytes));
    assert(texts(families@).len() == families@.len());
    if families.len() == 0 {
        return Err(
            "the font has no family name in its name table, so it cannot be referenced from a font-family in the SVG".to_owned(),
        );
    }
    Ok(FontAssetInfo { families, glyph_count })
}

/// Some font has a face with a glyph for a character.
pub open spec fn some_font_knows(fonts: Seq<Vec<u8>>, c: char) -> bool {
    exists|i: int|
        0 <= i < fonts.len() && font_faces(#[trigger] fonts[i]@).len() > 0 && glyph_known(
            fonts[i]@,
            c,
        )
}

/// The fonts that have a face.
fn loaded(fonts: &Vec<Vec<u8>>) -> (r: Vec<bool>)
    ensures
        r@.len() == fonts@.len(),
        forall|i: int|
            0 <= i < fonts@.len() ==> #[trigger] r@[i] == (font_faces(fonts@[i]@).len() > 0),
{
    let mut r: Vec<bool> = Vec::new();
    let mut i: usize = 0;
    while i < fonts.len()
        invariant
            i <= fonts@.len(),
            r@.len() == i,
            forall|k: int| 0 <= k < i ==> #[trigger] r@[k] == (font_faces(fonts@[k]@).len() > 0),
        decreases fonts.len() - i,
    {
        let faces: Vec<Vec<String>> = read_faces(fonts[i].as_slice());
        assert(face_texts(faces@).len() == faces@.len());
        r.push(faces.len() > 0);
        i = i + 1;
    }
    r
}

/// The characters of a list for which no font has a glyph, in their order.
pub open spec fn unknown_to(fonts: Seq<Vec<u8>>, chars: Seq<char>) -> Seq<char>
    decreases chars.len(),
{
    if chars.len() == 0 {
        Seq::empty()
    } else {
        let before = unknown_to(fonts, chars.drop_last());
        if some_font_knows(fonts, chars.last()) {
            before
        } else {
            before.push(chars.last())
        }
    }
}

/// Counts the characters of a list for which no font has a glyph.
pub fn count_unknown(fonts: &Vec<Vec<u8>>, chars: &Vec<char>) -> (r: usize)
    ensures
        r == unknown_to(fonts@, chars@).len(),
{
    let usable: Vec<bool> = loaded(fonts);
    let mut count: usize = 0;
    let mut k: usize = 0;
    assert(chars@.take(0) =~= Seq::empty());
    while k < chars.len()
        invariant
            usable@.len() == fonts@.len(),
            forall|i: int|
                0 <= i < fonts@.len() ==> #[trigger] usable@[i] == (font_faces(fonts@[i]@).len()
                    > 0),
            k <= chars@.len(),
            count == unknown_to(fonts@, chars@.take(k as int)).len(),
            count <= k,
        decreases chars.len() - k,
    {
        let c: char = chars[k];
        let mut known: bool = false;
        let mut i: usize = 0;
        while i < fonts.len()
            invariant
                usable@.len() == fonts@.len(),
                forall|i: int|
                    0 <= i < fonts@.len() ==> #[trigger] usable@[i] == (font_faces(
                        fonts@[i]@,
                    ).len() > 0),
                i <= fonts@.len(),
                known == (exists|j: int|
                    0 <= j < i && font_faces(#[trigger] fonts@[j]@).len() > 0 && glyph_known(
                        fonts@[j]@,
                        c,
                    )),
            decreases fonts.len() - i,
        {
            if usable[i] && has_glyph(fonts[i].as_slice(), c) {
                known = true;
                assert(font_faces(fonts@[i as int]@).len() > 0);
            }
            i = i + 1;
        }
        proof {
            assert(known == some_font_knows(fonts@, c));
            assert(chars@.take(k + 1).drop_last() =~= chars@.take(k as int));
            assert(chars@.take(k + 1).last() == c);
        }
        if !known {
            count = count + 1;
        }
        k = k + 1;
    }
    assert(chars@.take(k as int) =~= chars@);
    count
}

/// What is wrong with what a font revision gave: that it could not be read, or that it is not
/// a font to draw with.
pub open spec fn font_asset_fault(id: Seq<char>, asset: Result<Vec<u8>, AtxError>) -> Option<Fault> {
    match asset {
        Err(e) => Some(e@),
        Ok(bytes) => match font_fault(bytes@) {
            Some(m) => Some(Fault::InvalidRecipe("font asset "@ + id + ": "@ + m)),
            None => None,
        },
    }
}

/// The bytes of a font from what its revision gave.
pub fn font_from_asset(id: &str, asset: Result<Vec<u8>, AtxError>) -> (r: Result<
    Vec<u8>,
    AtxError,
>)
    ensures
        match r {
            Ok(bytes) => font_asset_fault(id@, asset) is None && asset == Ok::<Vec<u8>, AtxError>(
                bytes,
            ),
            Err(e) => font_asset_fault(id@, asset) == Some(e@),
        },
{
    match asset {
        Err(e) => Err(e),
        Ok(bytes) => match validate_font_asset(bytes.as_slice()) {
            Ok(_) => Ok(bytes),
            Err(m) => Err(AtxError::InvalidRecipe(cat4("font asset ", id, ": ", m.as_str()))),
        },
    }
}

} // verus!
