use spotless::info::{info_string, is_plain_plist, MOST_NESTED};

fn xml(body: &str) -> Vec<u8> {
    format!(
        "<?xml version=\"1.0\" encoding=\"UTF-8\"?>\n<!DOCTYPE plist PUBLIC \"-//Apple//DTD PLIST 1.0//EN\" \"http://www.apple.com/DTDs/PropertyList-1.0.dtd\">\n<plist version=\"1.0\"><dict><key>CFBundleName</key><string>Foo &amp; Bar</string>{body}</dict></plist>"
    )
    .into_bytes()
}

fn name(bytes: Vec<u8>) -> Option<String> {
    info_string(&Some(bytes), "CFBundleName")
}

#[test]
fn ordinary_lists_are_read() {
    assert_eq!(name(xml("")).unwrap(), "Foo & Bar");
    assert_eq!(name(xml("<key>k</key><date>2024-02-29T12:00:00Z</date>")).unwrap(), "Foo & Bar");
    assert_eq!(
        name(xml("<!-- updated & more --><key>update</key><string>to date &lt;9999-12-31-01&gt;</string>")).unwrap(),
        "Foo & Bar"
    );
    assert_eq!(name(b"{ CFBundleName = \"Foo\"; }".to_vec()).unwrap(), "Foo");
    assert_eq!(name(b"none".to_vec()), None);
    assert_eq!(info_string(&None, "CFBundleName"), None);
    assert_eq!(info_string(&Some(xml("")), "CFBundleExecutable"), None);
}

#[test]
fn a_date_that_may_be_out_of_range_is_not_read() {
    let day = "9999-12-31T23:59:59-01:00";
    for date in [
        format!("<date>{day}</date>"),
        format!("<x:date>{day}</x:date>"),
        format!("<date a=\"</\">{day}</date>"),
        "<date>9999-12-<!-- </ -->31T23:59:59-01:00</date>".to_string(),
        "<date>9999-12-<?p?>31T23:59:59-01:00</date>".to_string(),
        "<date>&#57;999-12-31T23:59:59-01:00</date>".to_string(),
        format!("<date\n>{day}</date>"),
    ] {
        let bytes = xml(&format!("<key>k</key>{date}"));
        assert!(!is_plain_plist(&bytes), "{date}");
        assert_eq!(name(bytes), None);
    }
}

fn nested(open: &str, close: &str, depth: usize) -> String {
    format!("{}{}", open.repeat(depth), close.repeat(depth))
}

#[test]
fn nesting_is_read_up_to_a_depth() {
    let most = MOST_NESTED as usize;
    // One more is the root's.
    let deep = nested("<array>", "</array>", most - 1);
    assert_eq!(name(xml(&format!("<key>k</key>{deep}"))).unwrap(), "Foo & Bar");
    let mixed = format!("{}<true/>{}", "<dict><key>a</key>".repeat(most - 1), "</dict>".repeat(most - 1));
    assert_eq!(name(xml(&format!("<key>k</key>{mixed}"))).unwrap(), "Foo & Bar");
    let deeper = nested("<array>", "</array>", most);
    assert_eq!(name(xml(&format!("<key>k</key>{deeper}"))), None);

    let list = |depth: usize| format!("{{ CFBundleName = Foo; k = {}; }}", nested("(", ")", depth)).into_bytes();
    assert_eq!(name(list(most - 1)).unwrap(), "Foo");
    assert_eq!(name(list(most)), None);
}

/// A binary list: a chain of so many arrays, each in the one before.
fn chain(depth: usize) -> Vec<u8> {
    let mut bytes = b"bplist00".to_vec();
    for i in 0..depth {
        bytes.push(if i + 1 < depth { 0xa1 } else { 0xa0 });
        if i + 1 < depth {
            bytes.extend(((i + 1) as u16).to_be_bytes());
        }
    }
    let table = bytes.len() as u64;
    for i in 0..depth {
        bytes.extend(((8 + 3 * i) as u16).to_be_bytes());
    }
    bytes.extend([0, 0, 0, 0, 0, 0, 2, 2]);
    bytes.extend((depth as u64).to_be_bytes());
    bytes.extend(0u64.to_be_bytes());
    bytes.extend(table.to_be_bytes());
    bytes
}

#[test]
fn binary_lists_are_read_up_to_a_depth() {
    let most = MOST_NESTED as usize;
    assert!(is_plain_plist(&chain(most)));
    assert_eq!(name(chain(most)), None);
    assert!(!is_plain_plist(&chain(most + 1)));
    assert!(is_plain_plist(b"bplist00"));

    // One that holds a name: a dictionary of one key.
    let mut bytes = b"bplist00".to_vec();
    bytes.extend([0xd1, 1, 2, 0x5c]);
    bytes.extend(b"CFBundleName");
    bytes.push(0x53);
    bytes.extend(b"Foo");
    bytes.extend([8, 11, 24]);
    bytes.extend([0, 0, 0, 0, 0, 0, 1, 1]);
    for n in [3u64, 0, 28] {
        bytes.extend(n.to_be_bytes());
    }
    assert_eq!(name(bytes).unwrap(), "Foo");
}
