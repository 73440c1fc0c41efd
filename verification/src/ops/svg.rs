//! Drawing SVG assets over the image.
//!
//! A drawing is parsed, checked and sized here; the renderer turns it into bytes, and what
//! those become and where they go is decided here again.
use resvg::usvg::{roxmltree, Options, Tree};
use vstd::prelude::*;
use vstd::utf8::{decode_utf8, valid_utf8};

use crate::binary::{Real, Real32};

use crate::error::{first_fault, op_error, op_fault, verdict, AtxError, Fault};
use crate::linear::{byte_to_unit, LinearImage};
use crate::number::{is_within, within, Number, ONE, SHORT_ONE, ZERO};
use crate::ops::blend::{composite_pixel, in_unit, over_pixel};
pub use crate::ops::fonts::{validate_font_asset, FontAssetInfo, MAX_FONT_BYTES};
use crate::ops::fonts::{count_unknown, family_of, font_bytes, text_family, texts, unknown_to};
use crate::pixel_ops::{show_size, size_text};
use crate::raster::{Image, Rgba32};
use crate::recipe::BlendMode;
use crate::resize::no_colour;
use crate::text::{
    begins, begins_with, cat2, cat3, cat4, cat5, chars_of, contains_text, dec, decimal, debug_text,
    decode_text, occurs, quoted, same_text, signed_dec, signed_decimal,
};
use crate::transform::is_bounded;
use crate::words::{check_space, cut_back, cut_ends, cut_front, cut_start, is_space, string_of, Cut};

verus! {

/// What is wrong with the font assets from place `k` on.
pub open spec fn font_id_fault(index: int, ids: Seq<String>, k: int) -> Option<Fault>
    decreases ids.len() - k,
{
    if k >= ids.len() {
        None
    } else if ids[k]@.len() == 0 {
        op_fault(
            index,
            "svg_overlay"@,
            "font_revision_ids["@ + decimal(k as nat) + "] must not be empty"@,
        )
    } else if !begins(ids[k]@, "rev_"@) {
        op_fault(
            index,
            "svg_overlay"@,
            "font_revision_ids["@ + decimal(k as nat) + "] must start with \"rev_\", got "@
                + debug_text(ids[k]@),
        )
    } else {
        font_id_fault(index, ids, k + 1)
    }
}

/// What is wrong with an offset.
pub open spec fn offset_fault(index: int, name: Seq<char>, v: i64) -> Option<Fault> {
    if -100_000_000 <= v <= 100_000_000 {
        None
    } else {
        op_fault(
            index,
            "svg_overlay"@,
            name
                + " must be within -100000000..=100000000 (the overlay is clipped to the image anyway; wider offsets only overflow the placement arithmetic), got "@
                + signed_decimal(v as int),
        )
    }
}

/// What is wrong with a raster edge.
pub open spec fn edge_fault(index: int, name: Seq<char>, v: Option<u32>) -> Option<Fault> {
    match v {
        None => None,
        Some(n) => if n == 0 {
            op_fault(index, "svg_overlay"@, name + " must be > 0 when given"@)
        } else if n > 32_768 {
            op_fault(
                index,
                "svg_overlay"@,
                name + " must be within 1..=32768, got "@ + decimal(n as nat),
            )
        } else {
            None
        },
    }
}

/// What is wrong with the asset that is drawn.
pub open spec fn svg_id_fault(index: int, id: Seq<char>) -> Option<Fault> {
    if id.len() == 0 {
        op_fault(index, "svg_overlay"@, "svg_revision_id must not be empty"@)
    } else if !begins(id, "rev_"@) {
        op_fault(
            index,
            "svg_overlay"@,
            "svg_revision_id must start with \"rev_\", got "@ + debug_text(id),
        )
    } else {
        None
    }
}

/// What is wrong with the parameters of `svg_overlay`.
pub open spec fn svg_overlay_fault(
    index: int,
    svg_revision_id: Seq<char>,
    x: i64,
    y: i64,
    opacity: Number,
    width: Option<u32>,
    height: Option<u32>,
    font_revision_ids: Seq<String>,
) -> Option<Fault> {
    if font_revision_ids.len() > 4 {
        op_fault(
            index,
            "svg_overlay"@,
            "font_revision_ids may hold at most 4 entries, got "@ + decimal(
                font_revision_ids.len(),
            ),
        )
    } else {
        first_fault(
            font_id_fault(index, font_revision_ids, 0),
            first_fault(
                svg_id_fault(index, svg_revision_id),
                first_fault(
                    if within(opacity.bits, ZERO, ONE) {
                        None
                    } else {
                        op_fault(
                            index,
                            "svg_overlay"@,
                            "opacity must be within 0.0..=1.0, got "@ + opacity.text@,
                        )
                    },
                    first_fault(
                        offset_fault(index, "x"@, x),
                        first_fault(
                            offset_fault(index, "y"@, y),
                            first_fault(
                                edge_fault(index, "width"@, width),
                                edge_fault(index, "height"@, height),
                            ),
                        ),
                    ),
                ),
            ),
        )
    }
}

/// Checks the font assets.
fn validate_font_ids(index: usize, ids: &Vec<String>) -> (r: Result<(), AtxError>)
    ensures
        verdict(r) == font_id_fault(index as int, ids@, 0),
{
    let mut k: usize = 0;
    while k < ids.len()
        invariant
            k <= ids.len(),
            font_id_fault(index as int, ids@, 0) == font_id_fault(index as int, ids@, k as int),
        decreases ids.len() - k,
    {
        let id: &str = ids[k].as_str();
        let number: String = dec(k as u64);
        if id.is_empty() {
            let message: String = cat3(
                "font_revision_ids[",
                number.as_str(),
                "] must not be empty",
            );
            return Err(op_error(index, "svg_overlay", message.as_str()));
        }
        if !begins_with(id, "rev_") {
            let shown: String = quoted(id);
            let message: String = cat4(
                "font_revision_ids[",
                number.as_str(),
                "] must start with \"rev_\", got ",
                shown.as_str(),
            );
            return Err(op_error(index, "svg_overlay", message.as_str()));
        }
        k = k + 1;
    }
    Ok(())
}

/// Checks an offset.
fn validate_offset(index: usize, name: &str, v: i64) -> (r: Result<(), AtxError>)
    ensures
        verdict(r) == offset_fault(index as int, name@, v),
{
    if v < -100_000_000 || v > 100_000_000 {
        let number: String = signed_dec(v);
        let message: String = cat3(
            name,
            " must be within -100000000..=100000000 (the overlay is clipped to the image anyway; wider offsets only overflow the placement arithmetic), got ",
            number.as_str(),
        );
        return Err(op_error(index, "svg_overlay", message.as_str()));
    }
    Ok(())
}

/// Checks a raster edge.
fn validate_edge(index: usize, name: &str, v: Option<u32>) -> (r: Result<(), AtxError>)
    ensures
        verdict(r) == edge_fault(index as int, name@, v),
{
    if let Some(n) = v {
        if n == 0 {
            let message: String = cat2(name, " must be > 0 when given");
            return Err(op_error(index, "svg_overlay", message.as_str()));
        }
        if n > 32_768 {
            let number: String = dec(n as u64);
            let message: String = cat3(name, " must be within 1..=32768, got ", number.as_str());
            return Err(op_error(index, "svg_overlay", message.as_str()));
        }
    }
    Ok(())
}

/// Checks the parameters of `svg_overlay`.
pub fn validate(
    index: usize,
    svg_revision_id: &str,
    x: i64,
    y: i64,
    opacity: &Number,
    width: Option<u32>,
    height: Option<u32>,
    font_revision_ids: &Vec<String>,
) -> (r: Result<(), AtxError>)
    ensures
        verdict(r) == svg_overlay_fault(
            index as int,
            svg_revision_id@,
            x,
            y,
            *opacity,
            width,
            height,
            font_revision_ids@,
        ),
{
    if font_revision_ids.len() > 4 {
        let number: String = dec(font_revision_ids.len() as u64);
        let message: String = cat2(
            "font_revision_ids may hold at most 4 entries, got ",
            number.as_str(),
        );
        return Err(op_error(index, "svg_overlay", message.as_str()));
    }
    match validate_font_ids(index, font_revision_ids) {
        Err(e) => return Err(e),
        Ok(_) => {},
    }
    if svg_revision_id.is_empty() {
        return Err(op_error(index, "svg_overlay", "svg_revision_id must not be empty"));
    }
    if !begins_with(svg_revision_id, "rev_") {
        let shown: String = quoted(svg_revision_id);
        let message: String = cat2(
            "svg_revision_id must start with \"rev_\", got ",
            shown.as_str(),
        );
        return Err(op_error(index, "svg_overlay", message.as_str()));
    }
    if !is_within(opacity.bits, ZERO, ONE) {
        let message: String = cat2(
            "opacity must be within 0.0..=1.0, got ",
            opacity.text.as_str(),
        );
        return Err(op_error(index, "svg_overlay", message.as_str()));
    }
    match validate_offset(index, "x", x) {
        Err(e) => return Err(e),
        Ok(_) => {},
    }
    match validate_offset(index, "y", y) {
        Err(e) => return Err(e),
        Ok(_) => {},
    }
    match validate_edge(index, "width", width) {
        Err(e) => return Err(e),
        Ok(_) => {},
    }
    validate_edge(index, "height", height)
}

// The document of a drawing.

/// A node of an XML document, in the order of the document.
#[derive(Clone, Debug)]
pub struct XmlNode {
    /// The place of the node that this one is in.
    pub parent: Option<usize>,
    pub element: bool,
    pub text_node: bool,
    /// The local name of an element.
    pub tag: String,
    /// The text of a text node.
    pub text: String,
    /// The local names and the values of the attributes of an element.
    pub attributes: Vec<(String, String)>,
}

/// A node with its texts as character sequences.
pub struct XmlNodeView {
    pub parent: Option<usize>,
    pub element: bool,
    pub text_node: bool,
    pub tag: Seq<char>,
    pub text: Seq<char>,
    pub attributes: Seq<(Seq<char>, Seq<char>)>,
}

impl View for XmlNode {
    type V = XmlNodeView;

    open spec fn view(&self) -> XmlNodeView {
        XmlNodeView {
            parent: self.parent,
            element: self.element,
            text_node: self.text_node,
            tag: self.tag@,
            text: self.text@,
            attributes: Seq::new(
                self.attributes@.len(),
                |i: int| (self.attributes@[i].0@, self.attributes@[i].1@),
            ),
        }
    }
}

/// The views of nodes.
pub open spec fn node_views(nodes: Seq<XmlNode>) -> Seq<XmlNodeView> {
    Seq::new(nodes.len(), |i: int| nodes[i]@)
}

/// The nodes of an XML text, or what is wrong with it.
pub uninterp spec fn xml_parsed(text: Seq<char>) -> Result<Seq<XmlNodeView>, Seq<char>>;

/// The width and the height of an SVG text as binary32 patterns, or why it is not a drawing,
/// where its text is laid out with fonts and a family that stands for every generic one.
pub uninterp spec fn svg_measured(
    text: Seq<char>,
    fonts: Seq<Seq<u8>>,
    family: Seq<char>,
) -> Result<(u32, u32), Seq<char>>;

/// `roxmltree::Document::parse` and the nodes of the document: all of them in order, each
/// with its parent, kind, local name, text and attributes. They depend on the text alone and
/// are named `xml_parsed` here, with an error in the words of its `Display`.
#[verifier::external_body]
fn parse_xml(text: &str) -> (r: Result<Vec<XmlNode>, String>)
    ensures
        match r {
            Ok(nodes) => xml_parsed(text@) == Ok::<Seq<XmlNodeView>, Seq<char>>(node_views(nodes@)),
            Err(m) => xml_parsed(text@) == Err::<Seq<XmlNodeView>, Seq<char>>(m@),
        },
{
    let doc = roxmltree::Document::parse(text).map_err(|e| e.to_string())?;
    let nodes = doc.descendants().map(|n| XmlNode {
        parent: n.parent().map(|p| p.id().get_usize()),
        element: n.is_element(),
        text_node: n.is_text(),
        tag: n.tag_name().name().to_owned(),
        text: n.text().unwrap_or_default().to_owned(),
        attributes: n.attributes().map(|a| (a.name().to_owned(), a.value().to_owned())).collect(),
    });
    Ok(nodes.collect())
}

/// `usvg::Tree::from_str` and the size of the tree. Only the given fonts are loaded, in their
/// order, and no file that the text refers to is read, so the answer depends on the text, the
/// fonts and the family alone; it is named `svg_measured` here, with an error in the words of
/// its `Display`.
#[verifier::external_body]
fn measure_svg(text: &str, fonts: &Vec<Vec<u8>>, family: &str) -> (r: Result<(u32, u32), String>)
    ensures
        match r {
            Ok(size) => svg_measured(text@, font_bytes(fonts@), family@) == Ok::<
                (u32, u32),
                Seq<char>,
            >(size),
            Err(m) => svg_measured(text@, font_bytes(fonts@), family@) == Err::<
                (u32, u32),
                Seq<char>,
            >(m@),
        },
{
    let mut opt = Options::default();
    opt.image_href_resolver.resolve_string = Box::new(|_, _| None);
    opt.font_family = family.to_owned();
    let db = opt.fontdb_mut();
    fonts.iter().for_each(|bytes| db.load_font_data(bytes.clone()));
    db.set_serif_family(family);
    db.set_sans_serif_family(family);
    db.set_monospace_family(family);
    db.set_cursive_family(family);
    db.set_fantasy_family(family);
    let tree = Tree::from_str(text, &opt).map_err(|e| e.to_string())?;
    Ok((tree.size().width().to_bits(), tree.size().height().to_bits()))
}

/// The size of a drawing whose text is laid out with fonts.
pub open spec fn drawing_size(text: Seq<char>, fonts: Seq<Seq<u8>>) -> Result<
    (u32, u32),
    Seq<char>,
> {
    svg_measured(text, fonts, family_of(fonts))
}

fn find_drawing_size(text: &str, fonts: &Vec<Vec<u8>>) -> (r: Result<(u32, u32), String>)
    ensures
        match r {
            Ok(size) => drawing_size(text@, font_bytes(fonts@)) == Ok::<(u32, u32), Seq<char>>(
                size,
            ),
            Err(m) => drawing_size(text@, font_bytes(fonts@)) == Err::<(u32, u32), Seq<char>>(m@),
        },
{
    let family: String = text_family(fonts);
    measure_svg(text, fonts, family.as_str())
}

/// The text of an SVG file: UTF-8, without byte order marks in front.
pub open spec fn svg_text(bytes: Seq<u8>) -> Option<Seq<char>> {
    if valid_utf8(bytes) {
        Some(cut_front(decode_utf8(bytes), Cut::Marks))
    } else {
        None
    }
}

/// The text of an SVG file: UTF-8, without byte order marks in front.
pub fn source_text(bytes: &[u8]) -> (r: Option<String>)
    ensures
        match r {
            Some(t) => svg_text(bytes@) == Some(t@),
            None => svg_text(bytes@) is None,
        },
{
    match decode_text(bytes) {
        Some(s) => Some(string_of(&cut_start(&chars_of(s.as_str()), Cut::Marks))),
        None => None,
    }
}

/// Whether a node is an element with a name.
pub open spec fn is_tag(node: XmlNodeView, name: Seq<char>) -> bool {
    node.element && node.tag == name
}

/// The place of the first element from `i` on, or the number of nodes.
pub open spec fn element_from(nodes: Seq<XmlNodeView>, i: int) -> int
    decreases nodes.len() - i,
{
    if i < 0 || i >= nodes.len() || nodes[i].element {
        i
    } else {
        element_from(nodes, i + 1)
    }
}

/// The root element of a document.
pub open spec fn root_of(nodes: Seq<XmlNodeView>) -> Option<XmlNodeView> {
    let i = element_from(nodes, 0);
    if i < nodes.len() {
        Some(nodes[i])
    } else {
        None
    }
}

/// The name of the root element.
pub open spec fn root_tag(nodes: Seq<XmlNodeView>) -> Seq<char> {
    match root_of(nodes) {
        Some(root) => root.tag,
        None => Seq::empty(),
    }
}

fn find_root(nodes: &Vec<XmlNode>) -> (r: Option<&XmlNode>)
    ensures
        match r {
            Some(root) => root_of(node_views(nodes@)) == Some(root@),
            None => root_of(node_views(nodes@)) is None,
        },
{
    let ghost views = node_views(nodes@);
    let mut i: usize = 0;
    while i < nodes.len()
        invariant
            views == node_views(nodes@),
            i <= nodes@.len(),
            element_from(views, 0) == element_from(views, i as int),
        decreases nodes.len() - i,
    {
        assert(views[i as int] == nodes@[i as int]@);
        if nodes[i].element {
            return Some(&nodes[i]);
        }
        i = i + 1;
    }
    None
}

/// The value of the first attribute with a name from `i` on.
pub open spec fn attribute_from(list: Seq<(Seq<char>, Seq<char>)>, name: Seq<char>, i: int) -> Option<
    Seq<char>,
>
    decreases list.len() - i,
{
    if i < 0 || i >= list.len() {
        None
    } else if list[i].0 == name {
        Some(list[i].1)
    } else {
        attribute_from(list, name, i + 1)
    }
}

/// The value of an attribute.
pub open spec fn attribute(node: XmlNodeView, name: Seq<char>) -> Option<Seq<char>> {
    attribute_from(node.attributes, name, 0)
}

fn find_attribute<'a>(node: &'a XmlNode, name: &str) -> (r: Option<&'a String>)
    ensures
        match r {
            Some(v) => attribute(node@, name@) == Some(v@),
            None => attribute(node@, name@) is None,
        },
{
    let ghost list = node@.attributes;
    let mut i: usize = 0;
    while i < node.attributes.len()
        invariant
            list == node@.attributes,
            i <= node.attributes@.len(),
            attribute(node@, name@) == attribute_from(list, name@, i as int),
        decreases node.attributes.len() - i,
    {
        assert(list[i as int] == (node.attributes@[i as int].0@, node.attributes@[i as int].1@));
        if same_text(node.attributes[i].0.as_str(), name) {
            return Some(&node.attributes[i].1);
        }
        i = i + 1;
    }
    None
}

/// Whether an attribute gives an absolute length: it is there, not empty and not in percent.
pub open spec fn is_absolute(root: XmlNodeView, name: Seq<char>) -> bool {
    match attribute(root, name) {
        None => false,
        Some(v) => {
            let t = cut_back(cut_front(v, Cut::Spaces), Cut::Spaces);
            t.len() > 0 && t.last() != '%'
        },
    }
}

fn check_absolute(root: &XmlNode, name: &str) -> (r: bool)
    ensures
        r == is_absolute(root@, name@),
{
    match find_attribute(root, name) {
        None => false,
        Some(v) => {
            let t: Vec<char> = cut_ends(&chars_of(v.as_str()), Cut::Spaces);
            t.len() > 0 && t[t.len() - 1] != '%'
        },
    }
}

/// Whether a drawing has a size of its own: a `viewBox`, or both sides in absolute lengths.
pub open spec fn is_sized(root: XmlNodeView) -> bool {
    attribute(root, "viewBox"@) is Some || (is_absolute(root, "width"@) && is_absolute(
        root,
        "height"@,
    ))
}

/// Whether a drawing has a size of its own.
pub fn has_intrinsic_size(root: &XmlNode) -> (r: bool)
    ensures
        r == is_sized(root@),
{
    if find_attribute(root, "viewBox").is_some() {
        return true;
    }
    check_absolute(root, "width") && check_absolute(root, "height")
}

/// 4294967295, the largest side.
pub const LARGEST_SIDE: u64 = 0x41EF_FFFF_FFE0_0000;

/// A positive number rounded to a side from 1 on; halves go up. There is none for what is
/// not positive, not finite or too large.
pub open spec fn side_of(v: Real) -> Option<u32> {
    if !is_bounded(v) || v.at_most(Real { bits: ZERO }) || (Real { bits: LARGEST_SIDE }).below(
        v.round(),
    ) {
        None
    } else {
        let n = v.round_integer();
        Some(
            if n < 1 {
                1
            } else if n > 0xFFFF_FFFF {
                0xFFFF_FFFF
            } else {
                n as u32
            },
        )
    }
}

/// A positive number rounded to a side from 1 on.
pub fn round_positive(v: Real) -> (r: Option<u32>)
    ensures
        r == side_of(v),
{
    let top: Real = Real { bits: LARGEST_SIDE };
    if !is_bounded(v) || v.at_most(Real { bits: ZERO }) || top.below(v.round()) {
        return None;
    }
    let n: i64 = v.round_integer();
    if n < 1 {
        Some(1)
    } else if n > 0xFFFF_FFFF {
        Some(0xFFFF_FFFF)
    } else {
        Some(n as u32)
    }
}

/// A length of a drawing.
#[verifier::allow_in_spec]
pub fn length(bits: u32) -> Real
    returns
        (Real32 { bits }).widened(),
{
    let v: Real32 = Real32 { bits };
    v.widened()
}

/// Both sides, where there are both.
#[verifier::allow_in_spec]
pub fn both(a: Option<u32>, b: Option<u32>) -> Option<(u32, u32)>
    returns
        (match (a, b) {
            (Some(x), Some(y)) => Some((x, y)),
            _ => None,
        }),
{
    match (a, b) {
        (Some(x), Some(y)) => Some((x, y)),
        _ => None,
    }
}

/// What an asset is: why it is not a drawing, or its own size where it has one.
pub open spec fn asset_checked(bytes: Seq<u8>) -> Result<Option<(u32, u32)>, Seq<char>> {
    match svg_text(bytes) {
        None => Err("the file is not valid UTF-8 text (gzipped .svgz is not supported)"@),
        Some(text) => match xml_parsed(text) {
            Err(m) => Err("the file is not parseable XML: "@ + m),
            Ok(nodes) => if root_tag(nodes) != "svg"@ {
                Err("the root element is <"@ + root_tag(nodes) + ">, not <svg>"@)
            } else {
                match drawing_size(text, seq![]) {
                    Err(m) => Err("the file is not a renderable SVG: "@ + m),
                    Ok(size) => Ok(
                        if root_of(nodes) is Some && is_sized(root_of(nodes)->0) {
                            both(side_of(length(size.0)), side_of(length(size.1)))
                        } else {
                            None
                        },
                    ),
                }
            },
        },
    }
}

/// Checks that bytes are a drawing, and finds its own size.
pub fn validate_asset(bytes: &[u8]) -> (r: Result<Option<(u32, u32)>, String>)
    ensures
        match r {
            Ok(size) => asset_checked(bytes@) == Ok::<Option<(u32, u32)>, Seq<char>>(size),
            Err(m) => asset_checked(bytes@) == Err::<Option<(u32, u32)>, Seq<char>>(m@),
        },
{
    let text: String = match source_text(bytes) {
        Some(t) => t,
        None => {
            return Err(
                "the file is not valid UTF-8 text (gzipped .svgz is not supported)".to_owned(),
            );
        },
    };
    let nodes: Vec<XmlNode> = match parse_xml(text.as_str()) {
        Ok(n) => n,
        Err(m) => {
            return Err(cat2("the file is not parseable XML: ", m.as_str()));
        },
    };
    let (tag, sized): (String, bool) = read_root(&nodes);
    if !same_text(tag.as_str(), "svg") {
        return Err(cat3("the root element is <", tag.as_str(), ">, not <svg>"));
    }
    let fonts: Vec<Vec<u8>> = Vec::new();
    assert(font_bytes(fonts@) =~= seq![]);
    match find_drawing_size(text.as_str(), &fonts) {
        Err(m) => Err(cat2("the file is not a renderable SVG: ", m.as_str())),
        Ok(size) => {
            if !sized {
                return Ok(None);
            }
            Ok(both(round_positive(length(size.0)), round_positive(length(size.1))))
        },
    }
}

/// The name of the root element, and whether it gives a size.
fn read_root(nodes: &Vec<XmlNode>) -> (r: (String, bool))
    ensures
        r.0@ == root_tag(node_views(nodes@)),
        r.1 == (root_of(node_views(nodes@)) is Some && is_sized(root_of(node_views(nodes@))->0)),
{
    match find_root(nodes) {
        Some(root) => {
            let tag: String = root.tag.as_str().to_owned();
            (tag, has_intrinsic_size(root))
        },
        None => {
            let tag: String = String::new();
            assert(tag@ =~= Seq::empty());
            (tag, false)
        },
    }
}

/// The size of a drawing in whole pixels; none where the bytes are no drawing or it has no
/// size of its own.
pub fn intrinsic_size(bytes: &[u8]) -> (r: Option<(u32, u32)>)
    ensures
        r == (match asset_checked(bytes@) {
            Ok(size) => size,
            Err(_) => None,
        }),
{
    match validate_asset(bytes) {
        Ok(size) => size,
        Err(_) => None,
    }
}

// What a drawing asks for that is not drawn.

/// Some element has a name.
pub open spec fn has_element(nodes: Seq<XmlNodeView>, name: Seq<char>) -> bool {
    exists|i: int| 0 <= i < nodes.len() && is_tag(#[trigger] nodes[i], name)
}

fn check_element(nodes: &Vec<XmlNode>, name: &str) -> (r: bool)
    ensures
        r == has_element(node_views(nodes@), name@),
{
    let ghost views = node_views(nodes@);
    let mut i: usize = 0;
    while i < nodes.len()
        invariant
            views == node_views(nodes@),
            i <= nodes@.len(),
            forall|k: int| 0 <= k < i ==> !is_tag(#[trigger] views[k], name@),
        decreases nodes.len() - i,
    {
        assert(views[i as int] == nodes@[i as int]@);
        if nodes[i].element && same_text(nodes[i].tag.as_str(), name) {
            assert(is_tag(views[i as int], name@));
            return true;
        }
        i = i + 1;
    }
    false
}

/// Whether an element shows an image from outside the document.
pub open spec fn is_external(node: XmlNodeView) -> bool {
    is_tag(node, "image"@) && (match attribute(node, "href"@) {
        Some(href) => !begins(cut_front(href, Cut::Spaces), "data:"@),
        None => false,
    })
}

fn check_external(node: &XmlNode) -> (r: bool)
    ensures
        r == is_external(node@),
{
    if !node.element || !same_text(node.tag.as_str(), "image") {
        return false;
    }
    match find_attribute(node, "href") {
        Some(href) => {
            let rest: String = string_of(&cut_start(&chars_of(href.as_str()), Cut::Spaces));
            !begins_with(rest.as_str(), "data:")
        },
        None => false,
    }
}

/// Whether some element shows an image from outside the document.
pub open spec fn shows_external(nodes: Seq<XmlNodeView>) -> bool {
    exists|i: int| 0 <= i < nodes.len() && is_external(#[trigger] nodes[i])
}

/// Whether some element shows an image from outside the document.
pub fn has_external_image(nodes: &Vec<XmlNode>) -> (r: bool)
    ensures
        r == shows_external(node_views(nodes@)),
{
    let ghost views = node_views(nodes@);
    let mut i: usize = 0;
    while i < nodes.len()
        invariant
            views == node_views(nodes@),
            i <= nodes@.len(),
            forall|k: int| 0 <= k < i ==> !is_external(#[trigger] views[k]),
        decreases nodes.len() - i,
    {
        assert(views[i as int] == nodes@[i as int]@);
        if check_external(&nodes[i]) {
            return true;
        }
        i = i + 1;
    }
    false
}

/// Whether a node lies inside a `text` element.
pub open spec fn under_text(nodes: Seq<XmlNodeView>, i: int) -> bool
    decreases i,
{
    match nodes[i].parent {
        Some(p) => 0 <= p < i && (is_tag(nodes[p as int], "text"@) || under_text(nodes, p as int)),
        None => false,
    }
}

/// A list of characters with another one, where it is no space and not there yet.
pub open spec fn with_char(list: Seq<char>, c: char) -> Seq<char> {
    if is_space(c) || list.contains(c) {
        list
    } else {
        list.push(c)
    }
}

/// A list of characters with those of a text.
pub open spec fn with_chars(list: Seq<char>, text: Seq<char>) -> Seq<char>
    decreases text.len(),
{
    if text.len() == 0 {
        list
    } else {
        with_char(with_chars(list, text.drop_last()), text.last())
    }
}

/// The characters, each once, of the text nodes inside `text` elements among the first `n`
/// nodes.
pub open spec fn text_chars(nodes: Seq<XmlNodeView>, n: nat) -> Seq<char>
    decreases n,
{
    if n == 0 {
        Seq::empty()
    } else {
        let before = text_chars(nodes, (n - 1) as nat);
        if nodes[n - 1].text_node && under_text(nodes, n - 1) {
            with_chars(before, nodes[n - 1].text)
        } else {
            before
        }
    }
}

fn add_chars(list: &mut Vec<char>, text: &str)
    ensures
        final(list)@ == with_chars(old(list)@, text@),
{
    let chars: Vec<char> = chars_of(text);
    let ghost first = list@;
    let mut i: usize = 0;
    assert(chars@.take(0) =~= Seq::empty());
    while i < chars.len()
        invariant
            i <= chars@.len(),
            list@ == with_chars(first, chars@.take(i as int)),
        decreases chars.len() - i,
    {
        let c: char = chars[i];
        proof {
            assert(chars@.take(i + 1).drop_last() =~= chars@.take(i as int));
            assert(chars@.take(i + 1).last() == c);
        }
        if !check_space(c) && !holds_char(list, c) {
            list.push(c);
        }
        i = i + 1;
    }
    assert(chars@.take(i as int) =~= chars@);
}

fn holds_char(list: &Vec<char>, c: char) -> (r: bool)
    ensures
        r == list@.contains(c),
{
    let mut i: usize = 0;
    while i < list.len()
        invariant
            i <= list@.len(),
            forall|k: int| 0 <= k < i ==> #[trigger] list@[k] != c,
        decreases list.len() - i,
    {
        if list[i] == c {
            assert(list@[i as int] == c);
            return true;
        }
        i = i + 1;
    }
    false
}

/// The characters that a document shows as text.
fn list_text_chars(nodes: &Vec<XmlNode>) -> (r: Vec<char>)
    ensures
        r@ == text_chars(node_views(nodes@), nodes@.len()),
{
    let ghost views = node_views(nodes@);
    let mut inside: Vec<bool> = Vec::new();
    let mut r: Vec<char> = Vec::new();
    let mut i: usize = 0;
    while i < nodes.len()
        invariant
            views == node_views(nodes@),
            i <= nodes@.len(),
            inside@.len() == i,
            forall|k: int| 0 <= k < i ==> #[trigger] inside@[k] == under_text(views, k),
            r@ == text_chars(views, i as nat),
        decreases nodes.len() - i,
    {
        let node: &XmlNode = &nodes[i];
        assert(views[i as int] == node@);
        let under: bool = match node.parent {
            Some(p) => {
                if p < i {
                    assert(views[p as int] == nodes@[p as int]@);
                    assert(inside@[p as int] == under_text(views, p as int));
                    (nodes[p].element && same_text(nodes[p].tag.as_str(), "text")) || inside[p]
                } else {
                    false
                }
            },
            None => false,
        };
        assert(under == under_text(views, i as int));
        if node.text_node && under {
            add_chars(&mut r, node.text.as_str());
        }
        inside.push(under);
        i = i + 1;
    }
    r
}

/// How many of the characters that a document shows as text no font has a glyph for.
pub open spec fn missing_chars(nodes: Seq<XmlNodeView>, fonts: Seq<Vec<u8>>) -> nat {
    unknown_to(fonts, text_chars(nodes, nodes.len())).len()
}

/// How many of the characters that a document shows as text no font has a glyph for.
pub fn missing_glyph_chars(nodes: &Vec<XmlNode>, fonts: &Vec<Vec<u8>>) -> (r: usize)
    ensures
        r == missing_chars(node_views(nodes@), fonts@),
{
    count_unknown(fonts, &list_text_chars(nodes))
}

/// What is said of characters without a glyph.
pub open spec fn missing_text(n: nat) -> Seq<char> {
    "svg text uses "@ + decimal(n)
        + " character(s) with no glyph in the loaded fonts (import a font asset and pass font_revision_ids)"@
}

/// What is said of characters without a glyph.
pub fn missing_glyph_warning(n: usize) -> (r: String)
    ensures
        r@ == missing_text(n as nat),
{
    let count: String = dec(n as u64);
    cat3(
        "svg text uses ",
        count.as_str(),
        " character(s) with no glyph in the loaded fonts (import a font asset and pass font_revision_ids)",
    )
}

/// What is said of text that is not drawn.
pub open spec fn unrendered_text() -> Seq<char> {
    "svg contains text elements; text is not rendered (convert text to paths for deterministic output)"@
}

/// What is said of images that are not read.
pub open spec fn external_text() -> Seq<char> {
    "svg contains image elements that reference external files; external references are never loaded (embed the image in the SVG, or import it and composite it with layers)"@
}

// From a drawing to pixels.

/// The most pixels of a raster.
pub const MAX_RASTER_PIXELS: u64 = 100_000_000;

/// How a drawing is rendered.
pub struct RasterPlan {
    /// What the renderer reads.
    pub text: String,
    pub width: u32,
    pub height: u32,
    /// Whether the renderer needs fonts.
    pub with_fonts: bool,
    pub warnings: Vec<String>,
}

/// What is said of text before the drawing is measured. `fonts` are there where text is to
/// be drawn.
pub open spec fn text_warnings(
    text: Seq<char>,
    nodes: Seq<XmlNodeView>,
    fonts: Option<Vec<Vec<u8>>>,
) -> Seq<Seq<char>> {
    match fonts {
        Some(f) => if has_element(nodes, "text"@) && missing_chars(nodes, f@) > 0 {
            seq![missing_text(missing_chars(nodes, f@))]
        } else {
            seq![]
        },
        None => if occurs(text, "<text"@) {
            seq![unrendered_text()]
        } else {
            seq![]
        },
    }
}

/// The size of a raster from what is asked for and the size of the drawing.
pub open spec fn raster_size(
    width: Option<u32>,
    height: Option<u32>,
    sized: bool,
    own: (Real, Real),
) -> Result<(u32, u32), Seq<char>> {
    match (width, height) {
        (Some(w), Some(h)) => Ok((w, h)),
        _ => if !sized {
            Err(
                "this SVG has no intrinsic size (no viewBox, and no absolute width/height on the root <svg>), so the raster size cannot be derived from it; give both width and height on the svg_overlay operation, or add a viewBox to the SVG"@,
            )
        } else {
            match (width, height) {
                (Some(w), _) => match side_of(
                    Real::nearest_to(w as int).times(own.1).over(own.0),
                ) {
                    Some(h) => Ok((w, h)),
                    None => Err("cannot derive a height from width "@ + decimal(w as nat)),
                },
                (None, Some(h)) => match side_of(
                    Real::nearest_to(h as int).times(own.0).over(own.1),
                ) {
                    Some(w) => Ok((w, h)),
                    None => Err("cannot derive a width from height "@ + decimal(h as nat)),
                },
                (None, None) => match (side_of(own.0), side_of(own.1)) {
                    (None, _) => Err("the SVG's intrinsic width is not usable"@),
                    (_, None) => Err("the SVG's intrinsic height is not usable"@),
                    (Some(w), Some(h)) => Ok((w, h)),
                },
            }
        },
    }
}

/// Finds the size of a raster.
pub fn find_raster_size(width: Option<u32>, height: Option<u32>, sized: bool, own: (Real, Real)) -> (r:
    Result<(u32, u32), String>)
    ensures
        match r {
            Ok(size) => raster_size(width, height, sized, own) == Ok::<(u32, u32), Seq<char>>(size),
            Err(m) => raster_size(width, height, sized, own) == Err::<(u32, u32), Seq<char>>(m@),
        },
{
    if let (Some(w), Some(h)) = (width, height) {
        return Ok((w, h));
    }
    if !sized {
        return Err(
            "this SVG has no intrinsic size (no viewBox, and no absolute width/height on the root <svg>), so the raster size cannot be derived from it; give both width and height on the svg_overlay operation, or add a viewBox to the SVG".to_owned(),
        );
    }
    match (width, height) {
        (Some(w), _) => {
            match round_positive(Real::from_integer(w as i64).times(own.1).over(own.0)) {
                Some(h) => Ok((w, h)),
                None => {
                    let side: String = dec(w as u64);
                    Err(cat2("cannot derive a height from width ", side.as_str()))
                },
            }
        },
        (None, Some(h)) => {
            match round_positive(Real::from_integer(h as i64).times(own.0).over(own.1)) {
                Some(w) => Ok((w, h)),
                None => {
                    let side: String = dec(h as u64);
                    Err(cat2("cannot derive a width from height ", side.as_str()))
                },
            }
        },
        (None, None) => {
            match (round_positive(own.0), round_positive(own.1)) {
                (None, _) => Err("the SVG's intrinsic width is not usable".to_owned()),
                (_, None) => Err("the SVG's intrinsic height is not usable".to_owned()),
                (Some(w), Some(h)) => Ok((w, h)),
            }
        },
    }
}

/// What is said of a raster that is too large.
pub open spec fn too_large_text(w: u32, h: u32) -> Seq<char> {
    "the requested raster is "@ + size_text(w, h) + " = "@ + decimal((w * h) as nat)
        + " pixels, over the 100000000 pixel limit for an svg_overlay raster"@
}

/// The fonts that a drawing is laid out with: those that are given, where it has text.
pub open spec fn fonts_used(nodes: Seq<XmlNodeView>, fonts: Option<Vec<Vec<u8>>>) -> Seq<Seq<u8>> {
    if fonts is Some && has_element(nodes, "text"@) {
        font_bytes(fonts->0@)
    } else {
        seq![]
    }
}

/// Why a drawing cannot be rendered, before the renderer is asked.
pub open spec fn raster_fault(
    bytes: Seq<u8>,
    width: Option<u32>,
    height: Option<u32>,
    fonts: Option<Vec<Vec<u8>>>,
) -> Option<Seq<char>> {
    match svg_text(bytes) {
        None => Some(
            "the referenced asset is not valid UTF-8 XML; svg_overlay needs a plain (non-gzipped) .svg file"@,
        ),
        Some(text) => match xml_parsed(text) {
            Err(m) => Some("the referenced asset is not parseable XML: "@ + m),
            Ok(nodes) => if root_tag(nodes) != "svg"@ {
                Some(
                    "the referenced asset's root element is <"@ + root_tag(nodes)
                        + ">, not <svg>"@,
                )
            } else {
                match drawing_size(text, fonts_used(nodes, fonts)) {
                    Err(m) => Some("the referenced asset is not a renderable SVG: "@ + m),
                    Ok(size) => match planned_size(nodes, size, width, height) {
                        Err(m) => Some(m),
                        Ok((w, h)) => if w * h > MAX_RASTER_PIXELS {
                            Some(too_large_text(w, h))
                        } else {
                            None
                        },
                    },
                }
            },
        },
    }
}

/// The size of the raster of a document.
pub open spec fn planned_size(
    nodes: Seq<XmlNodeView>,
    size: (u32, u32),
    width: Option<u32>,
    height: Option<u32>,
) -> Result<(u32, u32), Seq<char>> {
    raster_size(
        width,
        height,
        root_of(nodes) is Some && is_sized(root_of(nodes)->0),
        (length(size.0), length(size.1)),
    )
}

/// The size of the raster of a drawing that can be rendered.
pub open spec fn raster_dims(
    bytes: Seq<u8>,
    width: Option<u32>,
    height: Option<u32>,
    fonts: Option<Vec<Vec<u8>>>,
) -> (u32, u32) {
    let text = svg_text(bytes)->0;
    let nodes = xml_parsed(text)->Ok_0;
    planned_size(nodes, drawing_size(text, fonts_used(nodes, fonts))->Ok_0, width, height)->Ok_0
}

/// What is said of a drawing that can be rendered.
pub open spec fn raster_warnings(bytes: Seq<u8>, fonts: Option<Vec<Vec<u8>>>) -> Seq<Seq<char>> {
    let text = svg_text(bytes)->0;
    let nodes = xml_parsed(text)->Ok_0;
    text_warnings(text, nodes, fonts) + (if shows_external(nodes) {
        seq![external_text()]
    } else {
        seq![]
    })
}

/// A plan is that of a drawing that can be rendered.
pub open spec fn is_raster_plan(
    bytes: Seq<u8>,
    width: Option<u32>,
    height: Option<u32>,
    fonts: Option<Vec<Vec<u8>>>,
    plan: RasterPlan,
) -> bool {
    &&& svg_text(bytes) == Some(plan.text@)
    &&& (plan.width, plan.height) == raster_dims(bytes, width, height, fonts)
    &&& plan.with_fonts == (fonts is Some && has_element(xml_parsed(plan.text@)->Ok_0, "text"@))
    &&& texts(plan.warnings@) == raster_warnings(bytes, fonts)
}

/// Finds out what is said of text.
fn warn_of_text(text: &str, nodes: &Vec<XmlNode>, fonts: &Option<Vec<Vec<u8>>>) -> (r: (
    Vec<String>,
    bool,
))
    ensures
        texts(r.0@) == text_warnings(text@, node_views(nodes@), *fonts),
        r.1 == (fonts is Some && has_element(node_views(nodes@), "text"@)),
{
    let mut warnings: Vec<String> = Vec::new();
    let shown: bool = check_element(nodes, "text");
    match fonts {
        Some(f) => {
            if shown {
                let missing: usize = missing_glyph_chars(nodes, f);
                if missing > 0 {
                    warnings.push(missing_glyph_warning(missing));
                }
            }
            assert(texts(warnings@) =~= text_warnings(
                text@,
                node_views(nodes@),
                *fonts,
            ));
            (warnings, shown)
        },
        None => {
            if contains_text(&chars_of(text), &chars_of("<text")) {
                warnings.push(
                    "svg contains text elements; text is not rendered (convert text to paths for deterministic output)".to_owned(),
                );
            }
            assert(texts(warnings@) =~= text_warnings(
                text@,
                node_views(nodes@),
                *fonts,
            ));
            (warnings, false)
        },
    }
}

/// Finds out how a drawing is rendered. `fonts` are there where text is to be drawn: the
/// bundled font and the font assets, in their order.
pub fn plan_raster(
    bytes: &[u8],
    width: Option<u32>,
    height: Option<u32>,
    fonts: &Option<Vec<Vec<u8>>>,
) -> (r: Result<RasterPlan, String>)
    ensures
        match r {
            Ok(plan) => {
                &&& raster_fault(bytes@, width, height, *fonts) is None
                &&& is_raster_plan(bytes@, width, height, *fonts, plan)
                &&& plan.width * plan.height <= MAX_RASTER_PIXELS
            },
            Err(m) => raster_fault(bytes@, width, height, *fonts) == Some(m@),
        },
{
    let text: String = match source_text(bytes) {
        Some(t) => t,
        None => {
            return Err(
                "the referenced asset is not valid UTF-8 XML; svg_overlay needs a plain (non-gzipped) .svg file".to_owned(),
            );
        },
    };
    let nodes: Vec<XmlNode> = match parse_xml(text.as_str()) {
        Ok(n) => n,
        Err(m) => {
            return Err(cat2("the referenced asset is not parseable XML: ", m.as_str()));
        },
    };
    let (tag, sized): (String, bool) = read_root(&nodes);
    if !same_text(tag.as_str(), "svg") {
        return Err(
            cat3("the referenced asset's root element is <", tag.as_str(), ">, not <svg>"),
        );
    }
    let (mut warnings, with_fonts): (Vec<String>, bool) = warn_of_text(
        text.as_str(),
        &nodes,
        fonts,
    );
    let none: Vec<Vec<u8>> = Vec::new();
    let used: &Vec<Vec<u8>> = match fonts {
        Some(f) => if with_fonts {
            f
        } else {
            &none
        },
        None => &none,
    };
    assert(font_bytes(used@) =~= fonts_used(node_views(nodes@), *fonts));
    let size: (u32, u32) = match find_drawing_size(text.as_str(), used) {
        Ok(s) => s,
        Err(m) => {
            return Err(cat2("the referenced asset is not a renderable SVG: ", m.as_str()));
        },
    };
    let (w, h): (u32, u32) = match find_raster_size(
        width,
        height,
        sized,
        (length(size.0), length(size.1)),
    ) {
        Ok(s) => s,
        Err(m) => {
            return Err(m);
        },
    };
    proof {
        assert(w * h <= 0xFFFF_FFFF * 0xFFFF_FFFF) by (nonlinear_arith)
            requires
                w <= 0xFFFF_FFFF,
                h <= 0xFFFF_FFFF,
        ;
    }
    let count: u64 = w as u64 * h as u64;
    if count > MAX_RASTER_PIXELS {
        let shown: String = show_size(w, h);
        let pixels: String = dec(count);
        return Err(
            cat5(
                "the requested raster is ",
                shown.as_str(),
                " = ",
                pixels.as_str(),
                " pixels, over the 100000000 pixel limit for an svg_overlay raster",
            ),
        );
    }
    let ghost before = warnings@;
    if has_external_image(&nodes) {
        warnings.push(
            "svg contains image elements that reference external files; external references are never loaded (embed the image in the SVG, or import it and composite it with layers)".to_owned(),
        );
        assert(texts(warnings@) =~= texts(before).push(
            external_text(),
        ));
    }
    assert(texts(before) + seq![external_text()]
        =~= texts(before).push(external_text()));
    assert(texts(before) + Seq::empty() =~= texts(before));
    Ok(RasterPlan { text, width: w, height: h, with_fonts, warnings })
}

/// What is said where the renderer has no room.
pub open spec fn no_room_text(w: u32, h: u32) -> Seq<char> {
    "could not allocate a "@ + size_text(w, h) + " raster for the SVG"@
}

/// A rendered channel without its opacity.
#[verifier::allow_in_spec]
pub fn unmultiplied(c: u8, a: u8) -> Real32
    returns
        in_unit(byte_to_unit(c).over(byte_to_unit(a))),
{
    in_unit(byte_to_unit(c).over(byte_to_unit(a)))
}

/// A rendered pixel, whose colour comes times its opacity, as a colour and its opacity.
pub open spec fn raster_pixel(r: u8, g: u8, b: u8, a: u8) -> Rgba32 {
    if a == 0 {
        no_colour()
    } else {
        Rgba32 {
            r: unmultiplied(r, a),
            g: unmultiplied(g, a),
            b: unmultiplied(b, a),
            a: byte_to_unit(a),
        }
    }
}

fn to_raster_pixel(r: u8, g: u8, b: u8, a: u8) -> (p: Rgba32)
    ensures
        p == raster_pixel(r, g, b, a),
{
    if a == 0 {
        no_colour()
    } else {
        Rgba32 {
            r: unmultiplied(r, a),
            g: unmultiplied(g, a),
            b: unmultiplied(b, a),
            a: byte_to_unit(a),
        }
    }
}

/// `img` holds what was rendered: four bytes for each pixel, row by row.
pub open spec fn is_raster(rendered: Seq<u8>, img: LinearImage) -> bool {
    &&& img.well_formed()
    &&& forall|i: int|
        0 <= i < img.data@.len() ==> #[trigger] img.data@[i] == raster_pixel(
            rendered[4 * i],
            rendered[4 * i + 1],
            rendered[4 * i + 2],
            rendered[4 * i + 3],
        )
}

/// Makes an image of what was rendered; nothing was where the renderer had no room.
pub fn finish_raster(width: u32, height: u32, rendered: &Option<Vec<u8>>) -> (r: Result<
    LinearImage,
    String,
>)
    requires
        rendered matches Some(b) ==> b@.len() == 4 * (width * height),
    ensures
        match (*rendered, r) {
            (Some(b), Ok(img)) => img.width == width && img.height == height && is_raster(b@, img),
            (None, Err(m)) => m@ == no_room_text(width, height),
            _ => false,
        },
{
    let b: &Vec<u8> = match rendered {
        Some(b) => b,
        None => {
            let size: String = show_size(width, height);
            return Err(cat3("could not allocate a ", size.as_str(), " raster for the SVG"));
        },
    };
    let total: usize = b.len();
    let mut data: Vec<Rgba32> = Vec::new();
    let mut k: usize = 0;
    while k < total
        invariant
            total == b@.len(),
            total == 4 * (width * height),
            k <= total,
            k == 4 * data@.len(),
            forall|i: int|
                0 <= i < data@.len() ==> #[trigger] data@[i] == raster_pixel(
                    b@[4 * i],
                    b@[4 * i + 1],
                    b@[4 * i + 2],
                    b@[4 * i + 3],
                ),
        decreases total - k,
    {
        assert(k + 4 <= total);
        data.push(to_raster_pixel(b[k], b[k + 1], b[k + 2], b[k + 3]));
        k = k + 4;
    }
    Ok(Image { width, height, data })
}

/// A pixel of the image after a raster has been laid over it with its corner at `(x, y)`.
/// What lies outside the raster stays.
pub open spec fn overlaid(
    img: LinearImage,
    raster: LinearImage,
    x: i64,
    y: i64,
    mode: BlendMode,
    opacity: Real32,
    i: int,
    j: int,
) -> Rgba32 {
    if 0 <= i - x < raster.width && 0 <= j - y < raster.height {
        composite_pixel(
            mode,
            opacity,
            Real32 { bits: SHORT_ONE },
            img.pixel(i, j),
            raster.pixel(i - x, j - y),
        )
    } else {
        img.pixel(i, j)
    }
}

/// Lays a raster over an image of encoded colours. What lies outside the image is cut off.
pub fn apply(
    img: &LinearImage,
    raster: &LinearImage,
    x: i64,
    y: i64,
    mode: BlendMode,
    opacity: Real32,
) -> (r: LinearImage)
    requires
        img.well_formed(),
        raster.well_formed(),
    ensures
        r.well_formed(),
        r.width == img.width,
        r.height == img.height,
        forall|i: int, j: int|
            0 <= i < img.width && 0 <= j < img.height ==> #[trigger] r.pixel(i, j) == overlaid(
                *img,
                *raster,
                x,
                y,
                mode,
                opacity,
                i,
                j,
            ),
{
    let count: usize = img.data.len();
    let f = |i: u32, j: u32| -> (p: Rgba32)
        requires
            img.well_formed(),
            raster.well_formed(),
            i < img.width,
            j < img.height,
        ensures
            p == overlaid(*img, *raster, x, y, mode, opacity, i as int, j as int),
        {
            let dst: Rgba32 = img.get(i, j);
            let rx: i128 = i as i128 - x as i128;
            let ry: i128 = j as i128 - y as i128;
            if rx >= 0 && rx < raster.width as i128 && ry >= 0 && ry < raster.height as i128 {
                let one: Real32 = Real32 { bits: SHORT_ONE };
                over_pixel(mode, opacity, one, dst, raster.get(rx as u32, ry as u32))
            } else {
                dst
            }
        };
    let r: LinearImage = Image::build(img.width, img.height, f);
    proof {
        assert forall|i: int, j: int|
            0 <= i < img.width && 0 <= j < img.height implies #[trigger] r.pixel(i, j) == overlaid(
            *img,
            *raster,
            x,
            y,
            mode,
            opacity,
            i,
            j,
        ) by {
            assert(call_ensures(
                f,
                (i as u32, j as u32),
                r.pixel(i as u32 as int, j as u32 as int),
            ));
        }
    }
    r
}

/// Laying a raster over an image changes nothing outside the raster's rectangle.
pub proof fn overlay_stays_in_its_rectangle(
    img: LinearImage,
    raster: LinearImage,
    x: i64,
    y: i64,
    mode: BlendMode,
    opacity: Real32,
    i: int,
    j: int,
)
    requires
        i < x || i >= x + raster.width || j < y || j >= y + raster.height,
    ensures
        overlaid(img, raster, x, y, mode, opacity, i, j) == img.pixel(i, j),
{
}

} // verus!
