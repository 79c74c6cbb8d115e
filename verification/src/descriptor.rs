//! Descriptor exporters: pure serializers from packed-sheet geometry to a
//! generic JSON schema, a Unity-style XML atlas and a Cocos2d-style property
//! list. Each output is specified character for character.

use vstd::prelude::*;

use crate::media::hex_char;
use crate::spritesheet::{SpriteFrame, SpritesheetInfo};
use crate::strings::{dec_chars, str_to_chars, string_push, u32_to_string};

verus! {

/// The JSON text standing for one character of a string value: quotes and
/// backslashes gain a backslash, control characters become a `\u00XX`
/// escape, everything else is itself.
pub open spec fn json_escape_char(c: char) -> Seq<char> {
    if c == '"' {
        seq!['\\', '"']
    } else if c == '\\' {
        seq!['\\', '\\']
    } else if (c as u32) < 0x20 {
        seq!['\\', 'u', '0', '0', hex_char(((c as u32) / 16) as nat), hex_char(((c as u32) % 16) as nat)]
    } else {
        seq![c]
    }
}

/// A string value escaped for splicing into JSON text.
pub open spec fn json_escaped(s: Seq<char>) -> Seq<char>
    decreases s.len(),
{
    if s.len() == 0 {
        Seq::<char>::empty()
    } else {
        json_escaped(s.drop_last()) + json_escape_char(s.last())
    }
}

/// Append a string value to JSON text, escaped.
#[verifier::loop_isolation(false)]
fn append_json_escaped(s: &mut String, t: &str)
    ensures
        final(s)@ == old(s)@ + json_escaped(t@),
{
    let cs = str_to_chars(t);
    let n = cs.len();
    proof {
        assert(s@ =~= old(s)@ + json_escaped(t@.take(0)));
    }
    for i in 0..n
        invariant
            n == t@.len(),
            s@ =~= old(s)@ + json_escaped(t@.take(i as int)),
    {
        let c = cs[i];
        if c == '"' {
            string_push(s, '\\');
            string_push(s, '"');
        } else if c == '\\' {
            string_push(s, '\\');
            string_push(s, '\\');
        } else if (c as u32) < 0x20 {
            string_push(s, '\\');
            string_push(s, 'u');
            string_push(s, '0');
            string_push(s, '0');
            let code = c as u32;
            let hi = code / 16;
            let lo = code % 16;
            let c_hi = if hi < 10 {
                ((48 + hi) as u8) as char
            } else {
                ((87 + hi) as u8) as char
            };
            let c_lo = if lo < 10 {
                ((48 + lo) as u8) as char
            } else {
                ((87 + lo) as u8) as char
            };
            string_push(s, c_hi);
            string_push(s, c_lo);
            proof {
                assert(c_hi == hex_char(((c as u32) / 16) as nat));
                assert(c_lo == hex_char(((c as u32) % 16) as nat));
            }
        } else {
            string_push(s, c);
        }
        proof {
            assert(t@.take(i + 1).drop_last() =~= t@.take(i as int));
            assert(t@.take(i + 1).last() == t@[i as int]);
            assert(s@ =~= old(s)@ + json_escaped(t@.take(i + 1)));
        }
    }
    proof {
        assert(t@.take(n as int) =~= t@);
    }
}

/// The JSON fragment for one frame.
pub open spec fn frame_json(f: SpriteFrame) -> Seq<char> {
    "{\"name\":\""@ + json_escaped(f.name@) + "\",\"frame\":{\"x\":"@ + dec_chars(f.x as nat) + ",\"y\":"@
        + dec_chars(f.y as nat) + ",\"w\":"@ + dec_chars(f.width as nat) + ",\"h\":"@ + dec_chars(
        f.height as nat,
    ) + "}}"@
}

/// The comma-separated JSON fragments of all frames, in order.
pub open spec fn frames_json(frames: Seq<SpriteFrame>) -> Seq<char>
    decreases frames.len(),
{
    if frames.len() == 0 {
        Seq::<char>::empty()
    } else if frames.len() == 1 {
        frame_json(frames[0])
    } else {
        frames_json(frames.drop_last()) + ","@ + frame_json(frames.last())
    }
}

/// The whole JSON descriptor for a sheet.
pub open spec fn spec_json_descriptor(
    width: u32,
    height: u32,
    frames: Seq<SpriteFrame>,
    image: Seq<char>,
) -> Seq<char> {
    "{\"image\":\""@ + json_escaped(image) + "\",\"size\":{\"w\":"@ + dec_chars(width as nat) + ",\"h\":"@
        + dec_chars(height as nat) + "},\"frames\":["@ + frames_json(frames) + "]}"@
}

/// Append the JSON fragment of one frame.
#[verifier::rlimit(100)]
fn append_frame_json(s: &mut String, f: &SpriteFrame)
    ensures
        final(s)@ == old(s)@ + frame_json(*f),
{
    s.append("{\"name\":\"");
    append_json_escaped(s, f.name.as_str());
    s.append("\",\"frame\":{\"x\":");
    let t = u32_to_string(f.x);
    s.append(t.as_str());
    s.append(",\"y\":");
    let t = u32_to_string(f.y);
    s.append(t.as_str());
    s.append(",\"w\":");
    let t = u32_to_string(f.width);
    s.append(t.as_str());
    s.append(",\"h\":");
    let t = u32_to_string(f.height);
    s.append(t.as_str());
    s.append("}}");
    proof {
        assert(s@ =~= old(s)@ + frame_json(*f));
    }
}

/// Serialize sheet geometry to the generic JSON schema: the image file name,
/// the sheet size, and one object per frame with its name and rectangle, in
/// frame order. String values are JSON-escaped, so the output parses whatever
/// the names hold.
#[verifier::loop_isolation(false)]
#[verifier::rlimit(100)]
pub fn generate_json_descriptor(info: &SpritesheetInfo, image_filename: &str) -> (r: String)
    ensures
        r@ == spec_json_descriptor(info.width, info.height, info.frames@, image_filename@),
{
    let mut s = "{\"image\":\"".to_owned();
    append_json_escaped(&mut s, image_filename);
    s.append("\",\"size\":{\"w\":");
    let t = u32_to_string(info.width);
    s.append(t.as_str());
    s.append(",\"h\":");
    let t = u32_to_string(info.height);
    s.append(t.as_str());
    s.append("},\"frames\":[");
    let ghost prefix = s@;
    let n = info.frames.len();
    for i in 0..n
        invariant
            s@ =~= prefix + frames_json(info.frames@.take(i as int)),
    {
        if i > 0 {
            s.append(",");
        }
        append_frame_json(&mut s, &info.frames[i]);
        proof {
            assert(info.frames@.take(i + 1).drop_last() =~= info.frames@.take(i as int));
            assert(info.frames@.take(i + 1).last() == info.frames@[i as int]);
            assert(s@ =~= prefix + frames_json(info.frames@.take(i + 1)));
        }
    }
    proof {
        assert(info.frames@.take(n as int) =~= info.frames@);
    }
    s.append("]}");
    s
}

/// The XML element for one frame of the Unity-style atlas.
pub open spec fn frame_unity_xml(f: SpriteFrame) -> Seq<char> {
    "  <SubTexture name=\""@ + f.name@ + "\" x=\""@ + dec_chars(f.x as nat) + "\" y=\""@
        + dec_chars(f.y as nat) + "\" width=\""@ + dec_chars(f.width as nat) + "\" height=\""@
        + dec_chars(f.height as nat) + "\" />\n"@
}

/// The XML elements of all frames, in order.
pub open spec fn frames_unity_xml(frames: Seq<SpriteFrame>) -> Seq<char>
    decreases frames.len(),
{
    if frames.len() == 0 {
        Seq::<char>::empty()
    } else {
        frames_unity_xml(frames.drop_last()) + frame_unity_xml(frames.last())
    }
}

/// The whole Unity-style atlas document.
pub open spec fn spec_unity_xml_descriptor(
    width: u32,
    height: u32,
    frames: Seq<SpriteFrame>,
    image: Seq<char>,
) -> Seq<char> {
    "<?xml version=\"1.0\" encoding=\"UTF-8\"?>\n<TextureAtlas imagePath=\""@ + image
        + "\" width=\""@ + dec_chars(width as nat) + "\" height=\""@ + dec_chars(height as nat)
        + "\">\n"@ + frames_unity_xml(frames) + "</TextureAtlas>\n"@
}

/// Append the XML element of one frame.
#[verifier::rlimit(100)]
fn append_frame_unity_xml(s: &mut String, f: &SpriteFrame)
    ensures
        final(s)@ == old(s)@ + frame_unity_xml(*f),
{
    s.append("  <SubTexture name=\"");
    s.append(f.name.as_str());
    s.append("\" x=\"");
    let t = u32_to_string(f.x);
    s.append(t.as_str());
    s.append("\" y=\"");
    let t = u32_to_string(f.y);
    s.append(t.as_str());
    s.append("\" width=\"");
    let t = u32_to_string(f.width);
    s.append(t.as_str());
    s.append("\" height=\"");
    let t = u32_to_string(f.height);
    s.append(t.as_str());
    s.append("\" />\n");
    proof {
        assert(s@ =~= old(s)@ + frame_unity_xml(*f));
    }
}

/// Serialize sheet geometry to the Unity-style `TextureAtlas` XML schema: one
/// `SubTexture` element per frame, in frame order.
#[verifier::loop_isolation(false)]
#[verifier::rlimit(100)]
pub fn generate_unity_xml_descriptor(info: &SpritesheetInfo, image_filename: &str) -> (r: String)
    ensures
        r@ == spec_unity_xml_descriptor(info.width, info.height, info.frames@, image_filename@),
{
    let mut s = "<?xml version=\"1.0\" encoding=\"UTF-8\"?>\n<TextureAtlas imagePath=\"".to_owned();
    s.append(image_filename);
    s.append("\" width=\"");
    let t = u32_to_string(info.width);
    s.append(t.as_str());
    s.append("\" height=\"");
    let t = u32_to_string(info.height);
    s.append(t.as_str());
    s.append("\">\n");
    let ghost prefix = s@;
    let n = info.frames.len();
    for i in 0..n
        invariant
            s@ =~= prefix + frames_unity_xml(info.frames@.take(i as int)),
    {
        append_frame_unity_xml(&mut s, &info.frames[i]);
        proof {
            assert(info.frames@.take(i + 1).drop_last() =~= info.frames@.take(i as int));
            assert(info.frames@.take(i + 1).last() == info.frames@[i as int]);
            assert(s@ =~= prefix + frames_unity_xml(info.frames@.take(i + 1)));
        }
    }
    proof {
        assert(info.frames@.take(n as int) =~= info.frames@);
    }
    s.append("</TextureAtlas>\n");
    s
}

/// The property-list entry for one frame.
pub open spec fn frame_plist(f: SpriteFrame) -> Seq<char> {
    "    <key>"@ + f.name@ + "</key>\n    <dict>\n      <key>frame</key>\n      <string>{{"@
        + dec_chars(f.x as nat) + ","@ + dec_chars(f.y as nat) + "},{"@ + dec_chars(
        f.width as nat,
    ) + ","@ + dec_chars(f.height as nat) + "}}</string>\n      <key>sourceSize</key>\n      <string>{"@
        + dec_chars(f.width as nat) + ","@ + dec_chars(f.height as nat)
        + "}</string>\n    </dict>\n"@
}

/// The property-list entries of all frames, in order.
pub open spec fn frames_plist(frames: Seq<SpriteFrame>) -> Seq<char>
    decreases frames.len(),
{
    if frames.len() == 0 {
        Seq::<char>::empty()
    } else {
        frames_plist(frames.drop_last()) + frame_plist(frames.last())
    }
}

/// The whole Cocos2d-style property-list document.
pub open spec fn spec_plist_descriptor(
    width: u32,
    height: u32,
    frames: Seq<SpriteFrame>,
    image: Seq<char>,
) -> Seq<char> {
    "<?xml version=\"1.0\" encoding=\"UTF-8\"?>\n<!DOCTYPE plist PUBLIC \"-//Apple//DTD PLIST 1.0//EN\" \"http://www.apple.com/DTDs/PropertyList-1.0.dtd\">\n<plist version=\"1.0\">\n<dict>\n  <key>frames</key>\n  <dict>\n"@
        + frames_plist(frames)
        + "  </dict>\n  <key>metadata</key>\n  <dict>\n    <key>textureFileName</key>\n    <string>"@
        + image + "</string>\n    <key>size</key>\n    <string>{"@ + dec_chars(width as nat) + ","@
        + dec_chars(height as nat) + "}</string>\n  </dict>\n</dict>\n</plist>\n"@
}

/// Append the property-list entry of one frame.
#[verifier::rlimit(100)]
fn append_frame_plist(s: &mut String, f: &SpriteFrame)
    ensures
        final(s)@ == old(s)@ + frame_plist(*f),
{
    s.append("    <key>");
    s.append(f.name.as_str());
    s.append("</key>\n    <dict>\n      <key>frame</key>\n      <string>{{");
    let t = u32_to_string(f.x);
    s.append(t.as_str());
    s.append(",");
    let t = u32_to_string(f.y);
    s.append(t.as_str());
    s.append("},{");
    let t = u32_to_string(f.width);
    s.append(t.as_str());
    s.append(",");
    let t = u32_to_string(f.height);
    s.append(t.as_str());
    s.append("}}</string>\n      <key>sourceSize</key>\n      <string>{");
    let t = u32_to_string(f.width);
    s.append(t.as_str());
    s.append(",");
    let t = u32_to_string(f.height);
    s.append(t.as_str());
    s.append("}</string>\n    </dict>\n");
    proof {
        assert(s@ =~= old(s)@ + frame_plist(*f));
    }
}

/// Serialize sheet geometry to the Cocos2d-style property-list XML: one
/// dictionary entry per frame with its rectangle and source size, then the
/// texture metadata.
#[verifier::loop_isolation(false)]
#[verifier::rlimit(100)]
pub fn generate_cocos2d_plist_descriptor(info: &SpritesheetInfo, image_filename: &str) -> (r:
    String)
    ensures
        r@ == spec_plist_descriptor(info.width, info.height, info.frames@, image_filename@),
{
    let mut s =
        "<?xml version=\"1.0\" encoding=\"UTF-8\"?>\n<!DOCTYPE plist PUBLIC \"-//Apple//DTD PLIST 1.0//EN\" \"http://www.apple.com/DTDs/PropertyList-1.0.dtd\">\n<plist version=\"1.0\">\n<dict>\n  <key>frames</key>\n  <dict>\n".to_owned();
    let ghost prefix = s@;
    let n = info.frames.len();
    for i in 0..n
        invariant
            s@ =~= prefix + frames_plist(info.frames@.take(i as int)),
    {
        append_frame_plist(&mut s, &info.frames[i]);
        proof {
            assert(info.frames@.take(i + 1).drop_last() =~= info.frames@.take(i as int));
            assert(info.frames@.take(i + 1).last() == info.frames@[i as int]);
            assert(s@ =~= prefix + frames_plist(info.frames@.take(i + 1)));
        }
    }
    proof {
        assert(info.frames@.take(n as int) =~= info.frames@);
    }
    s.append("  </dict>\n  <key>metadata</key>\n  <dict>\n    <key>textureFileName</key>\n    <string>");
    s.append(image_filename);
    s.append("</string>\n    <key>size</key>\n    <string>{");
    let t = u32_to_string(info.width);
    s.append(t.as_str());
    s.append(",");
    let t = u32_to_string(info.height);
    s.append(t.as_str());
    s.append("}</string>\n  </dict>\n</dict>\n</plist>\n");
    s
}

} // verus!
