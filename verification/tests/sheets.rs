use asset_pipeline::descriptor::{
    generate_cocos2d_plist_descriptor, generate_json_descriptor, generate_unity_xml_descriptor,
};
use asset_pipeline::raster::Raster;
use asset_pipeline::spritesheet::{merge_spritesheet, split_image_grid, SpriteFrame, SpritesheetInfo};
use asset_pipeline::LibError;

fn solid(w: u32, h: u32, v: u8) -> Raster {
    Raster { width: w, height: h, pixels: vec![v; (w * h * 4) as usize] }
}

fn numbered(w: u32, h: u32) -> Raster {
    let mut pixels = Vec::new();
    for p in 0..(w * h) {
        let v = (p % 251) as u8;
        pixels.extend_from_slice(&[v, v.wrapping_add(1), v.wrapping_add(2), 255]);
    }
    Raster { width: w, height: h, pixels }
}

#[test]
fn packing_five_images_in_two_columns() {
    let images = vec![
        ("a".to_string(), solid(2, 1, 10)),
        ("b".to_string(), solid(1, 2, 20)),
        ("c".to_string(), solid(2, 2, 30)),
        ("d".to_string(), solid(1, 1, 40)),
        ("e".to_string(), solid(2, 2, 50)),
    ];
    let pad = 1u32;
    let (sheet, info) = merge_spritesheet(&images, 2, pad).unwrap();
    // maxW = maxH = 2, stride = 3; rows = ceil(5/2) = 3
    assert_eq!(info.width, 2 * 3 - 1);
    assert_eq!(info.height, 3 * 3 - 1);
    assert_eq!(sheet.width, info.width);
    assert_eq!(sheet.height, info.height);
    assert_eq!(info.frames.len(), 5);
    for (i, f) in info.frames.iter().enumerate() {
        assert_eq!(f.x, ((i as u32) % 2) * 3);
        assert_eq!(f.y, ((i as u32) / 2) * 3);
    }
    assert_eq!(info.frames[0].name, "a");
    assert_eq!((info.frames[0].width, info.frames[0].height), (2, 1));
    assert_eq!((info.frames[1].width, info.frames[1].height), (1, 2));
    // frame 0's pixels land at its cell, padding stays transparent
    let at = |x: u32, y: u32| {
        let o = (4 * (y * sheet.width + x)) as usize;
        [sheet.pixels[o], sheet.pixels[o + 1], sheet.pixels[o + 2], sheet.pixels[o + 3]]
    };
    assert_eq!(at(0, 0), [10, 10, 10, 10]);
    assert_eq!(at(1, 0), [10, 10, 10, 10]);
    assert_eq!(at(0, 1), [0, 0, 0, 0]); // below frame 0 (its height is 1)
    assert_eq!(at(2, 0), [0, 0, 0, 0]); // padding column
    assert_eq!(at(3, 0), [20, 20, 20, 20]); // frame 1
    assert_eq!(at(0, 3), [30, 30, 30, 30]); // frame 2, second row
    assert_eq!(at(3, 3), [40, 40, 40, 40]); // frame 3
    assert_eq!(at(0, 6), [50, 50, 50, 50]); // frame 4, third row
    assert_eq!(at(3, 6), [0, 0, 0, 0]); // empty cell
}

#[test]
fn packing_rejects_empty_input() {
    let r = merge_spritesheet(&Vec::new(), 4, 2);
    match r {
        Err(LibError::InvalidInput) => {},
        _ => panic!("expected invalid input"),
    }
}

#[test]
fn zero_columns_count_as_one() {
    let images = vec![("only".to_string(), solid(3, 2, 7))];
    let (sheet, info) = merge_spritesheet(&images, 0, 0).unwrap();
    assert_eq!((sheet.width, sheet.height), (3, 2));
    assert_eq!(info.frames[0].x, 0);
    assert_eq!(info.frames[0].y, 0);
}

#[test]
fn splitting_seven_by_five_in_grid() {
    let img = numbered(7, 5);
    let subs = split_image_grid(&img, 2, 3).unwrap();
    assert_eq!(subs.len(), 6);
    for sub in &subs {
        assert_eq!((sub.width, sub.height), (2, 2)); // floor(7/3) x floor(5/2)
    }
    // covered area never exceeds the source
    assert!(6 * 2 * 2 <= 7 * 5);
    // row-major order: sub k covers cell (k / 3, k % 3)
    for k in 0..6u32 {
        let (row, col) = (k / 3, k % 3);
        let sub = &subs[k as usize];
        for py in 0..2u32 {
            for px in 0..2u32 {
                let so = (4 * (py * 2 + px)) as usize;
                let io = (4 * ((row * 2 + py) * 7 + (col * 2 + px))) as usize;
                assert_eq!(sub.pixels[so], img.pixels[io]);
            }
        }
    }
}

#[test]
fn splitting_rejects_zero_grid() {
    let img = solid(4, 4, 1);
    match split_image_grid(&img, 0, 2) {
        Err(LibError::InvalidInput) => {},
        _ => panic!("expected invalid input"),
    }
    match split_image_grid(&img, 2, 0) {
        Err(LibError::InvalidInput) => {},
        _ => panic!("expected invalid input"),
    }
}

fn sample_info() -> SpritesheetInfo {
    SpritesheetInfo {
        width: 5,
        height: 8,
        frames: vec![
            SpriteFrame { name: "hero".to_string(), x: 0, y: 0, width: 2, height: 1 },
            SpriteFrame { name: "coin".to_string(), x: 3, y: 0, width: 1, height: 2 },
        ],
    }
}

#[test]
fn unity_descriptor_text() {
    let xml = generate_unity_xml_descriptor(&sample_info(), "atlas.png");
    let expected = "<?xml version=\"1.0\" encoding=\"UTF-8\"?>\n\
        <TextureAtlas imagePath=\"atlas.png\" width=\"5\" height=\"8\">\n\
        \x20 <SubTexture name=\"hero\" x=\"0\" y=\"0\" width=\"2\" height=\"1\" />\n\
        \x20 <SubTexture name=\"coin\" x=\"3\" y=\"0\" width=\"1\" height=\"2\" />\n\
        </TextureAtlas>\n";
    assert_eq!(xml, expected);
}

#[test]
fn json_descriptor_parses_and_matches() {
    let text = generate_json_descriptor(&sample_info(), "atlas.png");
    let v: serde_json::Value = serde_json::from_str(&text).unwrap();
    assert_eq!(v["image"], "atlas.png");
    assert_eq!(v["size"]["w"], 5);
    assert_eq!(v["size"]["h"], 8);
    assert_eq!(v["frames"][0]["name"], "hero");
    assert_eq!(v["frames"][0]["frame"]["x"], 0);
    assert_eq!(v["frames"][1]["frame"]["x"], 3);
    assert_eq!(v["frames"][1]["frame"]["h"], 2);
}

#[test]
fn plist_descriptor_text() {
    let plist = generate_cocos2d_plist_descriptor(&sample_info(), "atlas.png");
    assert!(plist.starts_with("<?xml version=\"1.0\" encoding=\"UTF-8\"?>\n<!DOCTYPE plist"));
    assert!(plist.contains("    <key>hero</key>"));
    assert!(plist.contains("<string>{{0,0},{2,1}}</string>"));
    assert!(plist.contains("<string>{2,1}</string>"));
    assert!(plist.contains("<string>atlas.png</string>"));
    assert!(plist.contains("<string>{5,8}</string>"));
    assert!(plist.ends_with("</dict>\n</plist>\n"));
}

#[test]
fn json_descriptor_escapes_names() {
    let info = SpritesheetInfo {
        width: 3,
        height: 3,
        frames: vec![SpriteFrame {
            name: "he\"ro\\one\n".to_string(),
            x: 1,
            y: 2,
            width: 3,
            height: 4,
        }],
    };
    let text = generate_json_descriptor(&info, "at\"las.png");
    let v: serde_json::Value = serde_json::from_str(&text).unwrap();
    assert_eq!(v["image"], "at\"las.png");
    assert_eq!(v["frames"][0]["name"], "he\"ro\\one\n");
    assert_eq!(v["frames"][0]["frame"]["y"], 2);
}
