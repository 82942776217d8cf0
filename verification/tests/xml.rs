use webdav::xml::{escape, lock_token, members, unescape, Member};

#[test]
fn a_multistatus_yields_its_members_and_a_lock_its_token() {
    let xml = r#"<?xml version="1.0"?><D:multistatus xmlns:D="DAV:">
            <D:response><D:href>/orders/</D:href><D:propstat><D:prop>
              <D:resourcetype><D:collection/></D:resourcetype></D:prop></D:propstat></D:response>
            <d:response><d:href>/orders/a&amp;b.edi</d:href><d:propstat><d:prop>
              <d:resourcetype/><d:lockdiscovery><d:activelock/></d:lockdiscovery>
              </d:prop></d:propstat></d:response>
            <response><href>/orders/2.edi</href><propstat><prop><resourcetype/>
              </prop></propstat></response></D:multistatus>"#;
    let members = webdav::xml::members(xml);
    assert_eq!(members.len(), 3);
    assert!(members[0].collection);
    assert_eq!(members[1].href, "/orders/a&b.edi");
    assert!(!members[1].collection);
    assert!(members[1].locked);
    assert!(!members[2].locked);
    assert_eq!(members[2].href, "/orders/2.edi");
    let lock = r#"<D:prop xmlns:D="DAV:"><D:lockdiscovery><D:activelock>
            <D:locktoken><D:href>opaquelocktoken:7</D:href></D:locktoken>
            </D:activelock></D:lockdiscovery></D:prop>"#;
    assert_eq!(lock_token(lock).as_deref(), Some("opaquelocktoken:7"));
    assert!(lock_token("<D:prop/>").is_none());
    assert!(
        webdav::xml::members("<D:multistatus><D:response>").is_empty(),
        "unclosed"
    );
    assert_eq!(escape("a<b&\"c\""), "a&lt;b&amp;&quot;c&quot;");
}

#[test]
fn the_five_entities_come_back() {
    assert_eq!(
        unescape("&lt;a&gt; &quot;b&quot; &apos;c&apos; &amp;"),
        "<a> \"b\" 'c' &"
    );
    assert_eq!(unescape("&amp;lt;"), "&lt;", "once, not twice");
    assert_eq!(unescape("&copy; & &l t;"), "&copy; & &l t;");
    assert_eq!(unescape(""), "");
    assert_eq!(unescape("\u{e5}&lt;\u{1f600}"), "\u{e5}<\u{1f600}");
}

#[test]
fn an_apostrophe_needs_no_escape() {
    assert_eq!(escape("it's > that"), "it's &gt; that");
    assert_eq!(escape(""), "");
}

#[test]
fn unescape_undoes_escape() {
    for text in ["", "a", "&amp;", "<&>\"'", "&lt;&&gt;;", "\u{e5}\u{4e2d}<\u{1f600}"] {
        assert_eq!(unescape(&escape(text)), text);
        assert!(!escape(text).contains('<'));
        assert!(!escape(text).contains('>'));
        assert!(!escape(text).contains('"'));
    }
}

#[test]
fn a_response_inside_a_response_belongs_to_it() {
    let xml = "<r:response><r:href> /a </r:href><r:response><r:href>/b</r:href></r:response>\
               </r:response><r:response><r:href>/c</r:href></r:response>";
    let hrefs: Vec<String> = members(xml).into_iter().map(|m| m.href).collect();
    assert_eq!(hrefs, vec!["/a".to_string(), "/c".to_string()]);
}

#[test]
fn a_response_without_a_href_is_no_member() {
    let xml = "<response><status/></response><response/><response><href>/x</href></response>";
    let found = members(xml);
    assert_eq!(
        found,
        vec![Member {
            href: "/x".to_string(),
            collection: false,
            locked: false,
        }]
    );
}

#[test]
fn a_prefix_does_not_matter() {
    let plain = "<response><href>/x</href><collection/></response>";
    let prefixed = "<ns0:response><ns0:href>/x</ns0:href><ns0:collection/></ns0:response>";
    assert_eq!(members(plain), members(prefixed));
    let spaced = "<D:response xmlns:D=\"DAV:\"><D:href >/x</D:href><D:collection /></D:response>";
    assert_eq!(members(plain), members(spaced));
}

#[test]
fn a_document_reads_the_same_whatever_its_prefixes() {
    let document = |p: &str, q: &str| {
        format!(
            "<{p}multistatus> <{q}response a='b'>\n<{p}href> /x&amp;y </{q}href><{q}collection/>\
             text</{p}response><{p}response><{p}href>/z</{p}href><{q}activelock /></{q}response>\
             </{p}multistatus> tail <"
        )
    };
    let plain = members(&document("", ""));
    assert_eq!(plain.len(), 2);
    assert_eq!(plain[0].href, "/x&y");
    assert!(plain[1].locked);
    for (p, q) in [("D:", "D:"), ("d:", ""), ("", "ns0:"), ("a:", "b:")] {
        assert_eq!(members(&document(p, q)), plain);
    }
    let lock = |p: &str, q: &str| {
        format!("<{p}locktoken> <{q}href>t</{p}href></{q}locktoken>")
    };
    assert_eq!(lock_token(&lock("D:", "")), lock_token(&lock("", "x:")));
}

#[test]
fn a_tag_inside_an_href_counts_only_where_the_href_is_read() {
    let second = |p: &str| {
        format!(
            "<href>x<{p}b/></href><response><href>/x</href><href>y<{p}b/></href></response>\
             <href>z<{p}b/></href>"
        )
    };
    assert_eq!(members(&second("")).len(), 1);
    assert_eq!(members(&second("")), members(&second("D:")));
    let first = |p: &str| format!("<response><href>/x<{p}b/></href></response>");
    assert_eq!(members(&first("D:"))[0].href, "/x<D:b/>");
    assert_ne!(members(&first("")), members(&first("D:")));
}

#[test]
fn a_longer_name_is_another_name() {
    assert!(members("<responses><href>/x</href></responses>").is_empty());
    assert!(lock_token("<locktoken2><href>t</href></locktoken2>").is_none());
}

#[test]
fn a_token_is_trimmed_and_unescaped() {
    let lock = "<locktoken>\n  <href>\n urn:a&amp;b\t</href></locktoken>";
    assert_eq!(lock_token(lock).as_deref(), Some("urn:a&b"));
    assert!(lock_token("<locktoken></locktoken>").is_none());
    assert!(lock_token("").is_none());
}
