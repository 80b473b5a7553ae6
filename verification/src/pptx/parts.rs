//! The XML parts of a presentation.

use vstd::prelude::*;

use crate::text;
use crate::text::push_number;

verus! {

/// What the package refers to.
pub const ROOT_RELS: &'static str =
    "<?xml version=\"1.0\" encoding=\"UTF-8\" standalone=\"yes\"?>\n<Relationships xmlns=\"http://schemas.openxmlformats.org/package/2006/relationships\">\n<Relationship Id=\"rId1\" Type=\"http://schemas.openxmlformats.org/officeDocument/2006/relationships/officeDocument\" Target=\"ppt/presentation.xml\"/>\n<Relationship Id=\"rId2\" Type=\"http://schemas.openxmlformats.org/package/2006/relationships/metadata/core-properties\" Target=\"docProps/core.xml\"/>\n<Relationship Id=\"rId3\" Type=\"http://schemas.openxmlformats.org/officeDocument/2006/relationships/extended-properties\" Target=\"docProps/app.xml\"/>\n</Relationships>";

/// Who made the presentation.
pub const CORE_PROPS: &'static str =
    "<?xml version=\"1.0\" encoding=\"UTF-8\" standalone=\"yes\"?>\n<cp:coreProperties xmlns:cp=\"http://schemas.openxmlformats.org/package/2006/metadata/core-properties\" xmlns:dc=\"http://purl.org/dc/elements/1.1/\"><dc:title>PDF pages</dc:title><dc:creator>Minimal PDF Converter</dc:creator></cp:coreProperties>";

/// The outermost group of a slide.
pub const GROUP_SHAPE: &'static str =
    "<p:nvGrpSpPr><p:cNvPr id=\"1\" name=\"\"/><p:cNvGrpSpPr/><p:nvPr/></p:nvGrpSpPr><p:grpSpPr><a:xfrm><a:off x=\"0\" y=\"0\"/><a:ext cx=\"0\" cy=\"0\"/><a:chOff x=\"0\" y=\"0\"/><a:chExt cx=\"0\" cy=\"0\"/></a:xfrm></p:grpSpPr>";

/// The master of the slides.
pub const MASTER: &'static str =
    "<?xml version=\"1.0\" encoding=\"UTF-8\" standalone=\"yes\"?>\n<p:sldMaster xmlns:a=\"http://schemas.openxmlformats.org/drawingml/2006/main\" xmlns:r=\"http://schemas.openxmlformats.org/officeDocument/2006/relationships\" xmlns:p=\"http://schemas.openxmlformats.org/presentationml/2006/main\"><p:cSld name=\"Blank Master\"><p:spTree><p:nvGrpSpPr><p:cNvPr id=\"1\" name=\"\"/><p:cNvGrpSpPr/><p:nvPr/></p:nvGrpSpPr><p:grpSpPr><a:xfrm><a:off x=\"0\" y=\"0\"/><a:ext cx=\"0\" cy=\"0\"/><a:chOff x=\"0\" y=\"0\"/><a:chExt cx=\"0\" cy=\"0\"/></a:xfrm></p:grpSpPr></p:spTree></p:cSld><p:clrMap accent1=\"accent1\" accent2=\"accent2\" accent3=\"accent3\" accent4=\"accent4\" accent5=\"accent5\" accent6=\"accent6\" bg1=\"lt1\" bg2=\"lt2\" folHlink=\"folHlink\" hlink=\"hlink\" tx1=\"dk1\" tx2=\"dk2\"/><p:sldLayoutIdLst><p:sldLayoutId id=\"2147483649\" r:id=\"rId1\"/></p:sldLayoutIdLst><p:txStyles><p:titleStyle/><p:bodyStyle/><p:otherStyle/></p:txStyles></p:sldMaster>";

/// What the master refers to.
pub const MASTER_RELS: &'static str =
    "<?xml version=\"1.0\" encoding=\"UTF-8\" standalone=\"yes\"?>\n<Relationships xmlns=\"http://schemas.openxmlformats.org/package/2006/relationships\"><Relationship Id=\"rId1\" Type=\"http://schemas.openxmlformats.org/officeDocument/2006/relationships/slideLayout\" Target=\"../slideLayouts/slideLayout1.xml\"/><Relationship Id=\"rId2\" Type=\"http://schemas.openxmlformats.org/officeDocument/2006/relationships/theme\" Target=\"../theme/theme1.xml\"/></Relationships>";

/// The layout of the slides.
pub const LAYOUT: &'static str =
    "<?xml version=\"1.0\" encoding=\"UTF-8\" standalone=\"yes\"?>\n<p:sldLayout xmlns:a=\"http://schemas.openxmlformats.org/drawingml/2006/main\" xmlns:r=\"http://schemas.openxmlformats.org/officeDocument/2006/relationships\" xmlns:p=\"http://schemas.openxmlformats.org/presentationml/2006/main\" type=\"blank\" preserve=\"1\"><p:cSld name=\"Blank\"><p:spTree><p:nvGrpSpPr><p:cNvPr id=\"1\" name=\"\"/><p:cNvGrpSpPr/><p:nvPr/></p:nvGrpSpPr><p:grpSpPr><a:xfrm><a:off x=\"0\" y=\"0\"/><a:ext cx=\"0\" cy=\"0\"/><a:chOff x=\"0\" y=\"0\"/><a:chExt cx=\"0\" cy=\"0\"/></a:xfrm></p:grpSpPr></p:spTree></p:cSld><p:clrMapOvr><a:masterClrMapping/></p:clrMapOvr></p:sldLayout>";

/// What the layout refers to.
pub const LAYOUT_RELS: &'static str =
    "<?xml version=\"1.0\" encoding=\"UTF-8\" standalone=\"yes\"?>\n<Relationships xmlns=\"http://schemas.openxmlformats.org/package/2006/relationships\"><Relationship Id=\"rId1\" Type=\"http://schemas.openxmlformats.org/officeDocument/2006/relationships/slideMaster\" Target=\"../slideMasters/slideMaster1.xml\"/></Relationships>";

/// The theme of the slides.
pub const THEME: &'static str =
    "<?xml version=\"1.0\" encoding=\"UTF-8\" standalone=\"yes\"?>\n<a:theme xmlns:a=\"http://schemas.openxmlformats.org/drawingml/2006/main\" name=\"Minimal\"><a:themeElements><a:clrScheme name=\"Minimal\"><a:dk1><a:sysClr val=\"windowText\" lastClr=\"000000\"/></a:dk1><a:lt1><a:sysClr val=\"window\" lastClr=\"FFFFFF\"/></a:lt1><a:dk2><a:srgbClr val=\"292929\"/></a:dk2><a:lt2><a:srgbClr val=\"F2F2F2\"/></a:lt2><a:accent1><a:srgbClr val=\"177E89\"/></a:accent1><a:accent2><a:srgbClr val=\"D65849\"/></a:accent2><a:accent3><a:srgbClr val=\"6C944D\"/></a:accent3><a:accent4><a:srgbClr val=\"C28D32\"/></a:accent4><a:accent5><a:srgbClr val=\"4676A5\"/></a:accent5><a:accent6><a:srgbClr val=\"7D6793\"/></a:accent6><a:hlink><a:srgbClr val=\"0000FF\"/></a:hlink><a:folHlink><a:srgbClr val=\"800080\"/></a:folHlink></a:clrScheme><a:fontScheme name=\"Minimal\"><a:majorFont><a:latin typeface=\"Arial\"/><a:ea typeface=\"\"/><a:cs typeface=\"\"/></a:majorFont><a:minorFont><a:latin typeface=\"Arial\"/><a:ea typeface=\"\"/><a:cs typeface=\"\"/></a:minorFont></a:fontScheme><a:fmtScheme name=\"Minimal\"><a:fillStyleLst><a:solidFill><a:schemeClr val=\"accent1\"/></a:solidFill><a:solidFill><a:schemeClr val=\"accent2\"/></a:solidFill><a:solidFill><a:schemeClr val=\"accent3\"/></a:solidFill></a:fillStyleLst><a:lnStyleLst><a:ln w=\"9525\"><a:solidFill><a:schemeClr val=\"accent1\"/></a:solidFill></a:ln><a:ln w=\"25400\"><a:solidFill><a:schemeClr val=\"accent1\"/></a:solidFill></a:ln><a:ln w=\"38100\"><a:solidFill><a:schemeClr val=\"accent1\"/></a:solidFill></a:ln></a:lnStyleLst><a:effectStyleLst><a:effectStyle><a:effectLst/></a:effectStyle><a:effectStyle><a:effectLst/></a:effectStyle><a:effectStyle><a:effectLst/></a:effectStyle></a:effectStyleLst><a:bgFillStyleLst><a:solidFill><a:schemeClr val=\"lt1\"/></a:solidFill><a:solidFill><a:schemeClr val=\"lt1\"/></a:solidFill><a:solidFill><a:schemeClr val=\"lt1\"/></a:solidFill></a:bgFillStyleLst></a:fmtScheme></a:themeElements></a:theme>";

/// How the list of part types begins.
pub const TYPES_START: &'static str =
    "<?xml version=\"1.0\" encoding=\"UTF-8\" standalone=\"yes\"?><Types xmlns=\"http://schemas.openxmlformats.org/package/2006/content-types\"><Default Extension=\"rels\" ContentType=\"application/vnd.openxmlformats-package.relationships+xml\"/><Default Extension=\"xml\" ContentType=\"application/xml\"/>";

/// The type of PNG files.
pub const TYPES_PNG: &'static str =
    "<Default Extension=\"png\" ContentType=\"image/png\"/>";

/// The type of JPEG files.
pub const TYPES_JPG: &'static str =
    "<Default Extension=\"jpg\" ContentType=\"image/jpeg\"/>";

/// The types of the parts that are always there.
pub const TYPES_PARTS: &'static str =
    "<Override PartName=\"/ppt/presentation.xml\" ContentType=\"application/vnd.openxmlformats-officedocument.presentationml.presentation.main+xml\"/><Override PartName=\"/ppt/slideMasters/slideMaster1.xml\" ContentType=\"application/vnd.openxmlformats-officedocument.presentationml.slideMaster+xml\"/><Override PartName=\"/ppt/slideLayouts/slideLayout1.xml\" ContentType=\"application/vnd.openxmlformats-officedocument.presentationml.slideLayout+xml\"/><Override PartName=\"/ppt/theme/theme1.xml\" ContentType=\"application/vnd.openxmlformats-officedocument.theme+xml\"/><Override PartName=\"/docProps/app.xml\" ContentType=\"application/vnd.openxmlformats-officedocument.extended-properties+xml\"/><Override PartName=\"/docProps/core.xml\" ContentType=\"application/vnd.openxmlformats-package.core-properties+xml\"/>";

/// What stands before the number of a slide in the list of part types.
pub const TYPES_SLIDE_START: &'static str =
    "<Override PartName=\"/ppt/slides/slide";

/// What stands behind it.
pub const TYPES_SLIDE_END: &'static str =
    ".xml\" ContentType=\"application/vnd.openxmlformats-officedocument.presentationml.slide+xml\"/>";

/// How the list of slides begins.
pub const PRESENTATION_START: &'static str =
    "<?xml version=\"1.0\" encoding=\"UTF-8\" standalone=\"yes\"?><p:presentation xmlns:a=\"http://schemas.openxmlformats.org/drawingml/2006/main\" xmlns:r=\"http://schemas.openxmlformats.org/officeDocument/2006/relationships\" xmlns:p=\"http://schemas.openxmlformats.org/presentationml/2006/main\"><p:sldMasterIdLst><p:sldMasterId id=\"2147483648\" r:id=\"rId1\"/></p:sldMasterIdLst><p:sldIdLst>";

/// What stands before the width of the slides.
pub const SIZE_START: &'static str =
    "</p:sldIdLst><p:sldSz cx=\"";

/// What stands behind their height.
pub const SIZE_END: &'static str =
    "\" type=\"custom\"/><p:notesSz cx=\"6858000\" cy=\"9144000\"/><p:defaultTextStyle/></p:presentation>";

/// How the list of what the presentation refers to begins.
pub const RELATIONS_START: &'static str =
    "<?xml version=\"1.0\" encoding=\"UTF-8\" standalone=\"yes\"?><Relationships xmlns=\"http://schemas.openxmlformats.org/package/2006/relationships\"><Relationship Id=\"rId1\" Type=\"http://schemas.openxmlformats.org/officeDocument/2006/relationships/slideMaster\" Target=\"slideMasters/slideMaster1.xml\"/>";

/// What stands between the numbers of a relation to a slide.
pub const RELATION_SLIDE: &'static str =
    "\" Type=\"http://schemas.openxmlformats.org/officeDocument/2006/relationships/slide\" Target=\"slides/slide";

/// What stands before the number of slides.
pub const APP_START: &'static str =
    "<?xml version=\"1.0\" encoding=\"UTF-8\" standalone=\"yes\"?><Properties xmlns=\"http://schemas.openxmlformats.org/officeDocument/2006/extended-properties\" xmlns:vt=\"http://schemas.openxmlformats.org/officeDocument/2006/docPropsVTypes\"><Application>Minimal PDF Converter</Application><PresentationFormat>Custom</PresentationFormat><Slides>";

/// What stands behind it.
pub const APP_END: &'static str =
    "</Slides></Properties>";

/// What stands before the name of the image of a slide.
pub const SLIDE_RELATIONS_START: &'static str =
    "<?xml version=\"1.0\" encoding=\"UTF-8\" standalone=\"yes\"?><Relationships xmlns=\"http://schemas.openxmlformats.org/package/2006/relationships\"><Relationship Id=\"rId1\" Type=\"http://schemas.openxmlformats.org/officeDocument/2006/relationships/slideLayout\" Target=\"../slideLayouts/slideLayout1.xml\"/><Relationship Id=\"rId2\" Type=\"http://schemas.openxmlformats.org/officeDocument/2006/relationships/image\" Target=\"../media/";

/// What stands behind it.
pub const SLIDE_RELATIONS_END: &'static str =
    "\"/></Relationships>";

/// What stands before the group of a slide.
pub const SLIDE_START: &'static str =
    "<?xml version=\"1.0\" encoding=\"UTF-8\" standalone=\"yes\"?><p:sld xmlns:a=\"http://schemas.openxmlformats.org/drawingml/2006/main\" xmlns:r=\"http://schemas.openxmlformats.org/officeDocument/2006/relationships\" xmlns:p=\"http://schemas.openxmlformats.org/presentationml/2006/main\"><p:cSld><p:bg><p:bgPr><a:solidFill><a:srgbClr val=\"FFFFFF\"/></a:solidFill><a:effectLst/></p:bgPr></p:bg><p:spTree>";

/// What stands before the number of a slide.
pub const SLIDE_PICTURE: &'static str =
    "<p:pic><p:nvPicPr><p:cNvPr id=\"2\" name=\"Page ";

/// What stands before the place of the picture.
pub const SLIDE_PLACE: &'static str =
    "\"/><p:cNvPicPr><a:picLocks noChangeAspect=\"1\"/></p:cNvPicPr><p:nvPr/></p:nvPicPr><p:blipFill><a:blip r:embed=\"rId2\"/><a:stretch><a:fillRect/></a:stretch></p:blipFill><p:spPr><a:xfrm><a:off x=\"";

/// What stands behind the size of the picture.
pub const SLIDE_END: &'static str =
    "\"/></a:xfrm><a:prstGeom prst=\"rect\"><a:avLst/></a:prstGeom></p:spPr></p:pic></p:spTree></p:cSld><p:clrMapOvr><a:masterClrMapping/></p:clrMapOvr></p:sld>";

/// The kinds of files that a slide can show.
#[derive(Debug, Clone, Copy, PartialEq, Eq, Structural)]
pub enum SlideImageFormat {
    Png,
    Jpeg,
}

impl SlideImageFormat {
    pub open spec fn extension_spec(self) -> Seq<char> {
        match self {
            SlideImageFormat::Png => "png"@,
            SlideImageFormat::Jpeg => "jpg"@,
        }
    }

    /// The extension of files of this kind.
    pub fn extension(self) -> (r: &'static str)
        ensures
            r@ == self.extension_spec(),
    {
        match self {
            SlideImageFormat::Png => "png",
            SlideImageFormat::Jpeg => "jpg",
        }
    }
}

/// The size of the slides, in 914400ths of an inch.
#[derive(Debug, Clone, Copy, PartialEq, Eq, Structural)]
pub struct Canvas {
    pub width: u64,
    pub height: u64,
}

/// The entries of the first `n` slides in the list of part types.
pub open spec fn slide_types(n: int) -> Seq<char>
    decreases n,
{
    if n <= 0 {
        Seq::empty()
    } else {
        slide_types(n - 1) + TYPES_SLIDE_START@ + text::number(n as nat) + TYPES_SLIDE_END@
    }
}

/// The list of part types.
#[verifier::opaque]
pub open spec fn types_text(png: bool, jpg: bool, count: int) -> Seq<char> {
    TYPES_START@ + (if png {
        TYPES_PNG@
    } else {
        Seq::empty()
    }) + (if jpg {
        TYPES_JPG@
    } else {
        Seq::empty()
    }) + TYPES_PARTS@ + slide_types(count) + "</Types>"@
}

/// The list of part types of a presentation with `count` slides.
pub fn content_types(png: bool, jpg: bool, count: usize) -> (r: String)
    ensures
        r@ == types_text(png, jpg, count as int),
{
    reveal(types_text);
    let mut list = String::new();
    let mut i: usize = 0;
    while i < count
        invariant
            i <= count,
            list@ == slide_types(i as int),
        decreases count - i,
    {
        list.push_str(TYPES_SLIDE_START);
        push_number(&mut list, i as u64 + 1);
        list.push_str(TYPES_SLIDE_END);
        i += 1;
    }
    let mut out = TYPES_START.to_owned();
    if png {
        out.push_str(TYPES_PNG);
    }
    assert(out@ =~= TYPES_START@ + (if png {
        TYPES_PNG@
    } else {
        Seq::empty()
    }));
    let ghost before = out@;
    if jpg {
        out.push_str(TYPES_JPG);
    }
    assert(out@ =~= before + (if jpg {
        TYPES_JPG@
    } else {
        Seq::empty()
    }));
    out.push_str(TYPES_PARTS);
    out.push_str(list.as_str());
    out.push_str("</Types>");
    out
}

/// The entries of the first `n` slides in the list of slides.
pub open spec fn slide_ids(n: int) -> Seq<char>
    decreases n,
{
    if n <= 0 {
        Seq::empty()
    } else {
        slide_ids(n - 1) + "<p:sldId id=\""@ + text::number((n + 255) as nat) + "\" r:id=\"rId"@
            + text::number((n + 1) as nat) + "\"/>"@
    }
}

/// The list of slides.
#[verifier::opaque]
pub open spec fn presentation_text(count: int, canvas: Canvas) -> Seq<char> {
    PRESENTATION_START@ + slide_ids(count) + SIZE_START@ + text::number(canvas.width as nat)
        + "\" cy=\""@ + text::number(canvas.height as nat) + SIZE_END@
}

/// The list of `count` slides.
pub fn presentation_xml(count: usize, canvas: Canvas) -> (r: String)
    requires
        count <= 1000,
    ensures
        r@ == presentation_text(count as int, canvas),
{
    reveal(presentation_text);
    let mut list = String::new();
    let mut i: usize = 0;
    while i < count
        invariant
            i <= count <= 1000,
            list@ == slide_ids(i as int),
        decreases count - i,
    {
        list.push_str("<p:sldId id=\"");
        push_number(&mut list, i as u64 + 256);
        list.push_str("\" r:id=\"rId");
        push_number(&mut list, i as u64 + 2);
        list.push_str("\"/>");
        i += 1;
    }
    let mut out = PRESENTATION_START.to_owned();
    out.push_str(list.as_str());
    out.push_str(SIZE_START);
    push_number(&mut out, canvas.width);
    out.push_str("\" cy=\"");
    push_number(&mut out, canvas.height);
    out.push_str(SIZE_END);
    out
}

/// The relations to the first `n` slides.
pub open spec fn slide_relations(n: int) -> Seq<char>
    decreases n,
{
    if n <= 0 {
        Seq::empty()
    } else {
        slide_relations(n - 1) + "<Relationship Id=\"rId"@ + text::number((n + 1) as nat)
            + RELATION_SLIDE@ + text::number(n as nat) + ".xml\"/>"@
    }
}

/// What the presentation refers to.
#[verifier::opaque]
pub open spec fn relations_text(count: int) -> Seq<char> {
    RELATIONS_START@ + slide_relations(count) + "</Relationships>"@
}

/// What a presentation with `count` slides refers to.
pub fn presentation_rels(count: usize) -> (r: String)
    requires
        count <= 1000,
    ensures
        r@ == relations_text(count as int),
{
    reveal(relations_text);
    let mut list = String::new();
    let mut i: usize = 0;
    while i < count
        invariant
            i <= count <= 1000,
            list@ == slide_relations(i as int),
        decreases count - i,
    {
        list.push_str("<Relationship Id=\"rId");
        push_number(&mut list, i as u64 + 2);
        list.push_str(RELATION_SLIDE);
        push_number(&mut list, i as u64 + 1);
        list.push_str(".xml\"/>");
        i += 1;
    }
    let mut out = RELATIONS_START.to_owned();
    out.push_str(list.as_str());
    out.push_str("</Relationships>");
    out
}

/// How many slides there are.
pub open spec fn app_text(count: int) -> Seq<char> {
    APP_START@ + text::number(count as nat) + APP_END@
}

/// How many slides there are.
pub fn app_xml(count: usize) -> (r: String)
    ensures
        r@ == app_text(count as int),
{
    let mut out = APP_START.to_owned();
    push_number(&mut out, count as u64);
    out.push_str(APP_END);
    out
}

/// Where a picture goes on a slide: as large as it fits, and in the middle.
pub struct Placement {
    pub x: int,
    pub y: int,
    pub width: int,
    pub height: int,
}

pub open spec fn placement(canvas: Canvas, width: u32, height: u32) -> Placement {
    let (across, down) = if canvas.width * height <= canvas.height * width {
        (canvas.width as int, canvas.width * height / (width as int))
    } else {
        (canvas.height * width / (height as int), canvas.height as int)
    };
    Placement {
        x: (canvas.width - across) / 2,
        y: (canvas.height - down) / 2,
        width: across,
        height: down,
    }
}

/// A picture is not cropped, and fills the slide in one direction.
pub proof fn law_picture_fits(canvas: Canvas, width: u32, height: u32)
    requires
        width > 0,
        height > 0,
    ensures
        ({
            let place = placement(canvas, width, height);
            &&& 0 <= place.x
            &&& 0 <= place.y
            &&& 0 <= place.width
            &&& 0 <= place.height
            &&& place.x + place.width <= canvas.width
            &&& place.y + place.height <= canvas.height
            &&& place.width == canvas.width || place.height == canvas.height
        }),
{
    let w = canvas.width as int;
    let h = canvas.height as int;
    let iw = width as int;
    let ih = height as int;
    if w * ih <= h * iw {
        assert(0 <= w * ih / iw <= h) by (nonlinear_arith)
            requires
                0 <= w * ih <= h * iw,
                iw > 0,
                h >= 0,
        ;
    } else {
        assert(0 <= h * iw / ih <= w) by (nonlinear_arith)
            requires
                0 <= h * iw < w * ih,
                ih > 0,
                w >= 0,
        ;
    }
}

/// A picture is not stretched: its sides on the slide are to each other as its
/// own are, but for what a length loses when it is rounded down.
pub proof fn law_picture_is_not_stretched(canvas: Canvas, width: u32, height: u32)
    requires
        width > 0,
        height > 0,
    ensures
        ({
            let place = placement(canvas, width, height);
            ||| 0 <= place.width * height - place.height * width < width
            ||| 0 <= place.height * width - place.width * height < height
        }),
{
    let w = canvas.width as int;
    let h = canvas.height as int;
    let iw = width as int;
    let ih = height as int;
    if w * ih <= h * iw {
        let down = w * ih / iw;
        assert(0 <= w * ih - down * iw < iw) by (nonlinear_arith)
            requires
                down == w * ih / iw,
                iw > 0,
        ;
    } else {
        let across = h * iw / ih;
        assert(0 <= h * iw - across * ih < ih) by (nonlinear_arith)
            requires
                across == h * iw / ih,
                ih > 0,
        ;
    }
}

/// A slide.
#[verifier::opaque]
pub open spec fn slide_text(number: int, place: Placement) -> Seq<char> {
    SLIDE_START@ + GROUP_SHAPE@ + SLIDE_PICTURE@ + text::number(number as nat) + SLIDE_PLACE@
        + text::number(place.x as nat) + "\" y=\""@ + text::number(place.y as nat)
        + "\"/><a:ext cx=\""@ + text::number(place.width as nat) + "\" cy=\""@ + text::number(
        place.height as nat,
    ) + SLIDE_END@
}

/// The slide with the given number, which shows a picture of the given size.
pub fn slide_xml(number: usize, width: u32, height: u32, canvas: Canvas) -> (r: String)
    requires
        width > 0,
        height > 0,
        canvas.width <= u32::MAX,
        canvas.height <= u32::MAX,
    ensures
        r@ == slide_text(number as int, placement(canvas, width, height)),
{
    reveal(slide_text);
    let iw: u64 = width as u64;
    let ih: u64 = height as u64;
    proof {
        law_picture_fits(canvas, width, height);
    }
    assert(canvas.width * ih <= u64::MAX && canvas.height * iw <= u64::MAX) by (nonlinear_arith)
        requires
            0 <= canvas.width <= u32::MAX,
            0 <= canvas.height <= u32::MAX,
            0 <= ih <= u32::MAX,
            0 <= iw <= u32::MAX,
    ;
    let (across, down) = if canvas.width * ih <= canvas.height * iw {
        (canvas.width, canvas.width * ih / iw)
    } else {
        (canvas.height * iw / ih, canvas.height)
    };
    let x: u64 = (canvas.width - across) / 2;
    let y: u64 = (canvas.height - down) / 2;
    let mut out = SLIDE_START.to_owned();
    out.push_str(GROUP_SHAPE);
    out.push_str(SLIDE_PICTURE);
    push_number(&mut out, number as u64);
    out.push_str(SLIDE_PLACE);
    push_number(&mut out, x);
    out.push_str("\" y=\"");
    push_number(&mut out, y);
    out.push_str("\"/><a:ext cx=\"");
    push_number(&mut out, across);
    out.push_str("\" cy=\"");
    push_number(&mut out, down);
    out.push_str(SLIDE_END);
    out
}

/// The name of the image of a slide.
pub open spec fn media_name_spec(number: int, format: SlideImageFormat) -> Seq<char> {
    "page"@ + text::number(number as nat) + "."@ + format.extension_spec()
}

/// The name of the image of a slide.
pub fn media_name(number: usize, format: SlideImageFormat) -> (r: String)
    ensures
        r@ == media_name_spec(number as int, format),
{
    let mut out = "page".to_owned();
    push_number(&mut out, number as u64);
    out.push_str(".");
    out.push_str(format.extension());
    out
}

/// What a slide refers to.
pub open spec fn slide_relations_text(media: Seq<char>) -> Seq<char> {
    SLIDE_RELATIONS_START@ + media + SLIDE_RELATIONS_END@
}

/// What a slide refers to.
pub fn slide_rels(media: &str) -> (r: String)
    ensures
        r@ == slide_relations_text(media@),
{
    let mut out = SLIDE_RELATIONS_START.to_owned();
    out.push_str(media);
    out.push_str(SLIDE_RELATIONS_END);
    out
}

} // verus!
