use xerj_autoindex::classify::{classify_text, nonblank_lines, sniff_csv_dialect, sniff_text};
use xerj_autoindex::sniff::{decode_text, looks_like_tga_header, sniff_head, Family, Sniffed, SNIFF_PREFIX_LEN, WINDOWS_1252_LOSSY};
use xerj_autoindex::sniff::format_str;
use xerj_autoindex::sniff::is_gzip_magic;
use xerj_autoindex::sniff::holds_docx_part;

/// The content sniff of a prefix, with no line accepted by the log-line
/// probe (none of these fixtures holds log lines).
fn sniff_prefix(bytes: &[u8]) -> Sniffed {
    if let Some(s) = sniff_head(bytes, false, false) {
        return s;
    }
    let (text, enc) = decode_text(bytes);
    let lines = nonblank_lines(&text);
    let refs: Vec<&str> = lines.iter().map(|s| s.as_str()).collect();
    sniff_text(&text, enc, &refs, 0)
}

fn sniff_str(s: &str) -> Family {
    sniff_prefix(s.as_bytes()).family
}

fn classify(s: &str) -> Family {
    let lines: Vec<&str> = s.lines().filter(|l| !l.trim().is_empty()).collect();
    classify_text(s, &lines, 0)
}

#[test]
fn unity_tagged_yaml_is_detected_by_header_not_extension() {
    let scene = "%YAML 1.1\n%TAG !u! tag:unity3d.com,2011:\n--- !u!1 &123\nGameObject:\n  m_Name: X\n";
    assert_eq!(sniff_str(scene), Family::UnityYaml);
}

#[test]
fn a_bom_before_the_yaml_directive_is_tolerated() {
    let scene =
        "\u{feff}%YAML 1.1\n%TAG !u! tag:unity3d.com,2011:\n--- !u!1 &1\nGameObject:\n  m_Name: X\n";
    assert_eq!(sniff_str(scene), Family::UnityYaml);
}

#[test]
fn meta_needs_the_first_line_rule_and_a_guid() {
    let meta = "fileFormatVersion: 2\nguid: 9f1c4d0ab2e34f6\nMonoImporter:\n  serializedVersion: 2\n";
    assert_eq!(sniff_str(meta), Family::UnityMeta);
    let stray = "config: true\nfileFormatVersion: 2\nguid: abc\n";
    assert_ne!(
        sniff_str(stray),
        Family::UnityMeta,
        "guid keys inside ordinary YAML must not reclassify it"
    );
    let no_guid = "fileFormatVersion: 2\nsettings:\n  a: 1\n";
    assert_ne!(sniff_str(no_guid), Family::UnityMeta);
}

#[test]
fn bvh_is_detected_by_hierarchy_root_header() {
    let bvh = "HIERARCHY\nROOT Hips\n{\n  OFFSET 0 90 0\n  CHANNELS 6 Xposition Yposition Zposition Zrotation Xrotation Yrotation\n}\nMOTION\nFrames: 2\nFrame Time: 0.033\n1 2 3\n4 5 6\n";
    assert_eq!(sniff_str(bvh), Family::Bvh);
    let not_bvh = "HIERARCHY\nof needs (Maslow):\n- physiological\n- safety\n";
    assert_ne!(sniff_str(not_bvh), Family::Bvh);
}

#[test]
fn plain_yaml_without_the_unity_tag_stays_yaml() {
    let plain = "%YAML 1.2\n---\nkey: value\nother: 1\nnested:\n  a: 2\n";
    assert_ne!(sniff_str(plain), Family::UnityYaml);
}

#[test]
fn media_containers_are_binary_by_magic_not_heuristics() {
    for (name, head) in [
        ("t.psd", &b"8BPS\x00\x01"[..]),
        ("t.tif", &b"II*\x00\x08\x00"[..]),
        ("t.tif2", &b"MM\x00*\x00\x08"[..]),
        ("t.wav", &b"RIFF\x24\x08\x00\x00WAVE"[..]),
        ("t.ogg", &b"OggS\x00\x02"[..]),
        ("t.flac", &b"fLaC\x00\x00\x00\x22"[..]),
        ("t.mp3", &b"ID3\x03\x00\x00\x00\x00\x0f\x76"[..]),
        ("t.fbx", &b"Kaydara FBX Binary  \x00"[..]),
    ] {
        let mut bytes = head.to_vec();
        bytes.extend(b"lorem ipsum dolor sit amet, consectetur adipiscing elit. ".repeat(20));
        let sn = sniff_prefix(&bytes);
        assert_eq!(sn.family, Family::Binary, "{name} must be binary");
    }
}

#[test]
fn a_printable_ascii_signature_alone_does_not_make_a_file_binary() {
    let csv = b"ID3,name,value\n1,alpha,2\n3,beta,4\n5,gamma,6\n7,delta,8\n";
    assert_eq!(
        sniff_prefix(csv).family,
        Family::Csv,
        "a column header may legitimately be the three letters ID3"
    );
    for (label, opener) in [
        ("riff", "RIFF is a container format used by WAV files. It stores chunks. "),
        ("oggs", "OggS pages carry the packets of an Ogg stream in order. "),
        ("flac", "fLaC is the four byte magic of a FLAC audio stream header. "),
        ("psd", "8BPS is the magic of an Adobe Photoshop document header. "),
    ] {
        let text = opener.repeat(30);
        let sn = sniff_prefix(text.as_bytes());
        assert_ne!(
            sn.family,
            Family::Binary,
            "{label}: prose that opens with the signature word is still prose"
        );
    }
}

#[test]
fn a_raw_tga_texture_is_binary_by_header_structure() {
    let mut tga: Vec<u8> = vec![0, 0, 2, 0, 0, 0, 0, 0, 0, 0, 0, 0, 64, 0, 64, 0, 24, 0];
    tga.extend((0..8192u32).map(|i| (0x80 + (i * 37) % 0x7f) as u8));
    let sn = sniff_prefix(&tga);
    assert_eq!(sn.family, Family::Binary, "a real TGA header must be seen");
    assert_eq!(sn.binary_kind.as_deref(), Some("tga"));
    for (label, text) in [
        ("prose", "The quick brown fox jumps over the lazy dog again."),
        ("csv", "id,name,value\n1,alpha,2\n3,beta,4\n"),
        ("json", "{\"id\": 1, \"name\": \"alpha\", \"value\": 2}"),
        ("code", "fn main() { println!(\"hello, world\"); }"),
        ("yaml", "name: alpha\nvalue: 2\nnested:\n  a: 1\n"),
    ] {
        assert!(text.len() >= 18, "{label}: fixture too short to prove it");
        assert!(
            !looks_like_tga_header(text.as_bytes()),
            "{label}: text must not satisfy the TGA header constraints"
        );
    }
}

#[test]
fn whitespace_free_ascii_text_is_not_junked_as_binary() {
    let mut repeated = "x".repeat(65_536);
    repeated.push('b');
    let b64: String = std::iter::repeat_n("QUJDREVGR0hJSktMTU5PUFFSU1RVVldYWVo", 300)
        .collect::<Vec<_>>()
        .join("");
    for (label, text) in [("repeated-letter", &repeated), ("base64", &b64)] {
        assert!(text.chars().filter(|c| c.is_whitespace()).count() == 0);
        let sn = sniff_prefix(text.as_bytes());
        assert_ne!(sn.family, Family::Binary, "{label}: whitespace-free ASCII is still text");
    }
    let prose = "The quick brown fox jumps over the lazy dog. ".repeat(200);
    assert_ne!(sniff_prefix(prose.as_bytes()).family, Family::Binary, "real prose must stay text");
}

#[test]
fn scriptio_continua_prose_is_not_mistaken_for_binary_soup() {
    for (label, unit) in [
        ("chinese", "本文档描述了系统的架构设计与实现细节。"),
        ("japanese", "この文書はシステムの設計と実装について説明します。"),
        ("korean", "이문서는시스템설계와구현에대해설명합니다"),
        ("thai", "เอกสารนี้อธิบายการออกแบบและการใช้งานของระบบ"),
    ] {
        let text = unit.repeat(4096 / unit.chars().count() + 2);
        assert!(text.chars().count() >= 4096, "{label}: sample must clear the 4096-char gate");
        let sn = sniff_prefix(text.as_bytes());
        assert_ne!(
            sn.family,
            Family::Binary,
            "{label}: scriptio-continua prose must not be junked as binary"
        );
    }
}

#[test]
fn binary_serialized_unity_assets_stay_binary() {
    let mut bytes = b"UnityFS\x00\x00\x00\x00\x08".to_vec();
    bytes.extend(std::iter::repeat_n(0u8, 64));
    assert_eq!(sniff_prefix(&bytes).family, Family::Binary);
}

#[test]
fn sniff_families() {
    assert_eq!(classify("{\"a\":1}\n{\"a\":2}\n{\"a\":3}\n"), Family::Jsonl);
    assert_eq!(classify("{\n  \"a\": 1,\n  \"b\": [1,2]\n}\n"), Family::Json);
    assert_eq!(classify("<!DOCTYPE html>\n<html><head></head></html>"), Family::Html);
    assert_eq!(classify("<?xml version='1.0'?>\n<r><a>1</a></r>"), Family::Xml);
    assert_eq!(classify("a,b,c\n1,2,3\n4,5,6\n"), Family::Csv);
    assert_eq!(
        classify("CREATE TABLE `t` (\n `a` int\n);\nINSERT INTO `t` VALUES (1);\n"),
        Family::SqlDump
    );
    assert_eq!(classify("key: value\nother: 1\nnested:\n  a: 2\n"), Family::Yaml);
}

#[test]
fn toml_table_header_is_not_json() {
    let cargo = "[package]\nname = \"xerj-fts\"\nversion = \"0.1.0\"\nedition = \"2021\"\n\n\
                 [dependencies]\nserde = { version = \"1\", features = [\"derive\"] }\n\
                 serde_json = \"1\"\nanyhow = \"1\"\n";
    assert_eq!(classify(cargo), Family::TxtLines);
    let ini = "[Unit]\nDescription=demo\nAfter=network.target\n\n\
               [Service]\nExecStart=/bin/true\nRestart=always\n\n\
               [Install]\nWantedBy=multi-user.target\n";
    assert_eq!(classify(ini), Family::TxtLines);
    assert_eq!(classify("[1, 2, 3]\n"), Family::Json);
    assert_eq!(classify("[\n  {\"a\": 1},\n  {\"a\": 2}\n]\n"), Family::Json);
}

#[test]
fn csv_dialect_semicolon_decimal_comma() {
    let lines = vec![
        "geraet;zeitpunkt;temperatur_c",
        "dev-1;2026-03-09T02:09:26Z;50,6",
        "dev-2;2026-03-10T19:10:36Z;57,0",
    ];
    let d = sniff_csv_dialect(&lines).unwrap();
    assert_eq!(d.delim, b';');
    assert!(d.has_header);
    assert!(d.decimal_comma);
}

#[test]
fn markdown_checklist_is_prose_not_yaml() {
    let md = "# Launch checklist\n\n\
              - [ ] Sign off the [business plan](01-business-plan.md)\n\
              - [x] Close out permits\n\
              - [ ] Dry run: two full batches back to back\n";
    assert_eq!(classify(md), Family::TxtProse);
    let yaml = "- alpha\n- beta\n- gamma\n";
    assert_eq!(classify(yaml), Family::Yaml);
}

#[test]
fn hard_wrapped_markdown_note_is_prose_not_lines() {
    let md = "# Hydration\n\n\
              Hydration is water as a percentage of flour weight, the core of\n\
              [[baker-percentages]]. 65% is a tight sandwich loaf; 75-80% is where open\n\
              [[crumb-structure]] lives; past 85% the dough demands real skill.\n\n\
              Higher hydration = looser dough, longer bulk, bigger holes. It is the single\n\
              most consequential number in the formula.\n";
    assert_eq!(classify(md), Family::TxtProse);
    let sh = "#!/usr/bin/env bash\n\
              set -euo pipefail\n\
              for f in a b c; do\n\
              echo one\n\
              echo two\n\
              echo three\n\
              done\n";
    assert_eq!(classify(sh), Family::TxtLines);
}

// ---- further cases ----

#[test]
fn a_log_majority_makes_line_records_logs() {
    let text = "a\nb\nc\nd\ne\n";
    let lines: Vec<&str> = text.lines().collect();
    assert_eq!(classify_text(text, &lines, 3), Family::Logs);
    assert_ne!(classify_text(text, &lines, 2), Family::Logs);
}

#[test]
fn magic_bytes_decide_before_content() {
    assert_eq!(sniff_prefix(b"%PDF-1.7\n").family, Family::Pdf);
    assert_eq!(sniff_prefix(b"SQLite format 3\x00....").family, Family::Sqlite);
    let zip = sniff_prefix(b"PK\x03\x04rest");
    assert_eq!((zip.family, zip.binary_kind.as_deref()), (Family::Binary, Some("zip")));
    assert_eq!(sniff_head(b"PK\x03\x04rest", true, false).unwrap().family, Family::Docx);
    let empty = sniff_prefix(b"");
    assert_eq!((empty.family, empty.binary_kind.as_deref()), (Family::Binary, Some("empty")));
    assert_eq!(sniff_prefix(b"\x89PNG\r\n").binary_kind.as_deref(), Some("png"));
}

#[test]
fn a_code_extension_decides_after_the_binary_guards() {
    assert_eq!(sniff_head(b"fn main() {}\n", false, true).unwrap().family, Family::Code);
    assert_eq!(sniff_head(b"\x7fELF....", false, true).unwrap().family, Family::Binary);
}

#[test]
fn a_cut_last_line_is_left_out() {
    assert_eq!(nonblank_lines("a\n\nb\nc"), vec!["a", "b"]);
    assert_eq!(nonblank_lines("a\r\nb\n"), vec!["a", "b"]);
    assert_eq!(nonblank_lines("only"), vec!["only"]);
}

#[test]
fn format_labels_name_the_family_and_mark_gzip() {
    let mut s = sniff_prefix(b"{\"a\":1}\n{\"a\":2}\n");
    assert_eq!(format_str(Some(&s)), "jsonl");
    s.gzip = true;
    assert_eq!(format_str(Some(&s)), "jsonl(gzip)");
    assert_eq!(format_str(None), "unknown");
}

#[test]
fn gzip_is_recognised_by_its_two_magic_bytes() {
    assert!(is_gzip_magic(&[0x1f, 0x8b, 8, 0]));
    assert!(!is_gzip_magic(&[0x1f]));
    assert!(!is_gzip_magic(b"PK\x03\x04"));
}

#[test]
fn a_zip_is_a_word_document_only_with_its_main_part() {
    let names = |v: &[&str]| v.iter().map(|s| s.to_string()).collect::<Vec<_>>();
    assert!(holds_docx_part(&names(&["[Content_Types].xml", "word/document.xml"])));
    assert!(!holds_docx_part(&names(&["xl/workbook.xml", "word/styles.xml"])));
    assert!(!holds_docx_part(&[]));
}


/// Classify a file's bytes as the sniffer reads them: only the leading
/// `SNIFF_PREFIX_LEN` bytes. A multi-byte character straddling that cut is
/// what the legacy-encoding cases below exercise.
fn sniff_file(bytes: &[u8], _name: &str) -> Family {
    let n = bytes.len().min(SNIFF_PREFIX_LEN);
    sniff_prefix(&bytes[..n]).family
}

#[test]
fn legacy_single_byte_prose_is_not_junked_by_the_real_read_path() {
    for (label, enc, unit) in [
        ("windows-1251-ru", encoding_rs::WINDOWS_1251, "Этот документ описывает архитектуру системы и детали реализации. "),
        ("koi8-r-ru", encoding_rs::KOI8_R, "Этот документ описывает архитектуру системы и детали реализации. "),
        ("windows-1253-el", encoding_rs::WINDOWS_1253, "Το έγγραφο αυτό περιγράφει την αρχιτεκτονική του συστήματος. "),
        ("windows-1255-he", encoding_rs::WINDOWS_1255, "מסמך זה מתאר את ארכיטקטורת המערכת ואת פרטי היישום שלה. "),
        ("windows-1256-ar", encoding_rs::WINDOWS_1256, "تصف هذه الوثيقة بنية النظام وتفاصيل تنفيذه بشكل كامل. "),
    ] {
        let text = unit.repeat(200);
        let (bytes, _, had_errors) = enc.encode(&text);
        assert!(!had_errors, "{label}: fixture must encode cleanly");
        assert!(std::str::from_utf8(&bytes).is_err(), "{label}: fixture must not be valid UTF-8, or it proves nothing");
        assert!(bytes.len() > 8192, "{label}: fixture must exceed the sniff prefix");
        assert_ne!(sniff_file(&bytes, "doc.txt"), Family::Binary, "{label}: legacy-encoded prose must not be junked as binary");
    }
}

#[test]
fn legacy_cjk_prose_survives_every_prefix_alignment() {
    for (label, enc, unit) in [
        ("shift_jis", encoding_rs::SHIFT_JIS, "この文書はシステムの設計と実装について詳しく説明します。"),
        ("gbk", encoding_rs::GBK, "本文档描述了系统的架构设计与实现。"),
        ("big5", encoding_rs::BIG5, "本文件描述系統的架構設計與實作。"),
        ("euc-kr", encoding_rs::EUC_KR, "이문서는시스템의설계와구현을설명합니다"),
    ] {
        let text = unit.repeat(400);
        let (body, _, had_errors) = enc.encode(&text);
        assert!(!had_errors, "{label}: fixture must encode cleanly");
        assert!(body.len() > 8192, "{label}: fixture must exceed the sniff prefix, or alignment cannot matter");
        for pad in 0..4usize {
            let mut bytes = vec![b'a'; pad];
            bytes.extend_from_slice(&body);
            assert_ne!(sniff_file(&bytes, "doc.txt"), Family::Binary, "{label}: junked at byte-offset pad {pad}");
        }
    }
}

#[test]
fn mixed_script_documentation_is_not_junked() {
    let unit = "この関数は入力データを検証してから処理を実行し、結果を呼び出し元に返します。\n\
                エラーが発生した場合は、詳細な理由を含む診断情報を記録します。\n\
                ```\nfn process(d: &[u8]) -> Result<Vec<u8>, ProcessError> {\n    \
                let checked = validate(d)?;\n    Ok(checked.to_vec())\n}\n```\n\
                See docs/process.md and the API reference for the full parameter list.\n";
    let ideographic = unit.chars().filter(|c| !c.is_ascii()).count() * 100 / unit.chars().count().max(1);
    assert!(
        (20..30).contains(&ideographic),
        "fixture must sit in the band between a 30% ideograph floor and a 30% non-ASCII ceiling; got {ideographic}%"
    );
    for reps in [40usize, 200] {
        let doc = unit.repeat(reps);
        let (bytes, _, _) = encoding_rs::SHIFT_JIS.encode(&doc);
        assert_ne!(
            sniff_file(&bytes, "doc.txt"),
            Family::Binary,
            "mixed Japanese/ASCII documentation ({} bytes) must not be junked",
            bytes.len()
        );
    }
}

#[test]
fn european_windows_1252_prose_is_still_prose() {
    let text = "Le système décrit ici gère les données réservées à \
                l'opérateur, prêtes à être exportées. ";
    let long = text.repeat(200);
    let (bytes, _, _) = encoding_rs::WINDOWS_1252.encode(&long);
    assert!(std::str::from_utf8(&bytes).is_err());
    let (_, enc) = decode_text(&bytes);
    assert_eq!(enc, WINDOWS_1252_LOSSY, "must stay windows-1252");
    assert_ne!(sniff_file(&bytes, "note.txt"), Family::Binary, "accented prose is still prose");
}

#[test]
fn the_issue_folder_indexes_every_file() {
    let cars = "BMW,model,year\nX5,SUV,2024\n330i,sedan,2023\nM3,coupe,2022\niX,SUV,2025\n".to_string();
    let gif = "GIF89a is the header format used by the GIF image standard. ".repeat(30);
    let id3 = "ID3 tags are metadata containers embedded in MP3 files. ".repeat(30);
    for (name, body, want) in [
        ("cars.csv", cars, Family::Csv),
        ("gif-notes.txt", gif, Family::TxtProse),
        ("id3-notes.txt", id3, Family::TxtProse),
    ] {
        let sn = sniff_prefix(&body.as_bytes()[..body.len().min(SNIFF_PREFIX_LEN)]);
        assert_eq!(sn.family, want, "{name}: classified {} ({:?})", sn.family.as_str(), sn.binary_kind);
    }
}

#[test]
fn a_real_bitmap_on_disk_is_still_binary() {
    // BITMAPFILEHEADER (14) + BITMAPINFOHEADER (40), 2x2 24bpp.
    let mut bmp: Vec<u8> = b"BM".to_vec();
    bmp.extend_from_slice(&70u32.to_le_bytes());
    bmp.extend_from_slice(&[0, 0, 0, 0]);
    bmp.extend_from_slice(&54u32.to_le_bytes());
    bmp.extend_from_slice(&40u32.to_le_bytes());
    bmp.extend_from_slice(&2i32.to_le_bytes());
    bmp.extend_from_slice(&2i32.to_le_bytes());
    bmp.extend_from_slice(&[1, 0, 24, 0]);
    bmp.extend(std::iter::repeat_n(0u8, 24));
    // A printable tail that would otherwise pass the prose heuristics.
    bmp.extend(b"lorem ipsum dolor sit amet, consectetur adipiscing elit. ".repeat(20));
    let sn = sniff_prefix(&bmp[..bmp.len().min(SNIFF_PREFIX_LEN)]);
    assert_eq!(sn.family, Family::Binary);
    assert_eq!(sn.binary_kind.as_deref(), Some("bmp"));
}

#[test]
fn a_long_commented_gif_on_disk_survives_the_prefix_cut() {
    fn streamed(sub_block: u8, comment_len: usize) -> Vec<u8> {
        let mut g: Vec<u8> = b"GIF89a".to_vec();
        g.extend_from_slice(&48u16.to_le_bytes());
        g.extend_from_slice(&48u16.to_le_bytes());
        g.push(0x80); // GCT present, 2 entries
        g.push(0);
        g.push(0);
        g.extend_from_slice(&[0, 0, 0, 0xff, 0xff, 0xff]);
        g.extend_from_slice(&[0x21, 0xfe]);
        let mut left = comment_len;
        while left > 0 {
            let take = left.min(usize::from(sub_block));
            g.push(take as u8);
            g.extend(std::iter::repeat_n(b'D', take));
            left -= take;
        }
        g.push(0x00);
        g.extend_from_slice(&[0x2c, 0, 0, 0, 0, 48, 0, 48, 0, 0, 0x02]);
        g
    }
    for (name, sub_block, len) in [("stream64.gif", 64u8, 20_000usize), ("stream100.gif", 100, 60_000), ("stream255.gif", 255, 60_000)] {
        let bytes = streamed(sub_block, len);
        assert!(bytes.len() > 8192, "{name}: fixture must outrun the prefix");
        let sn = sniff_prefix(&bytes[..SNIFF_PREFIX_LEN]);
        assert_eq!((sn.family, sn.binary_kind.as_deref()), (Family::Binary, Some("gif")), "{name}");
    }
    // The same shape, in prose: `!` at 13, a windows-1252 0xFE at 14.
    let mut notes: Vec<u8> = b"GIF89a fichie!".to_vec();
    notes.push(0xfe);
    for _ in 0..400 {
        notes.extend_from_slice("Le format GIF reste partout sur le web. ".as_bytes());
    }
    let sn = sniff_prefix(&notes[..SNIFF_PREFIX_LEN]);
    assert_eq!(sn.family, Family::TxtProse, "prose was junked as {:?}", sn.binary_kind);
}
