use iuretranscribe::iurefficient::{listing_from_nodes, Account, XmlNode, connection_info, content_type_for, explain_status, parse_multistatus, parse_u64, upload_outcome};

const XML: &str = r#"<?xml version="1.0"?><d:multistatus xmlns:d="DAV:" xmlns:oc="http://owncloud.org/ns">
<d:response><d:href>/webdav/</d:href><d:propstat><d:prop><d:resourcetype><d:collection/></d:resourcetype><oc:permissions>G</oc:permissions></d:prop></d:propstat></d:response>
<d:response><d:href>/webdav/Clientes/</d:href><d:propstat><d:prop><d:displayname>Clientes</d:displayname><d:resourcetype><d:collection/></d:resourcetype><oc:permissions>G</oc:permissions></d:prop></d:propstat></d:response>
<d:response><d:href>/webdav/General/</d:href><d:propstat><d:prop><d:resourcetype><d:collection/></d:resourcetype><oc:permissions>GC</oc:permissions></d:prop></d:propstat></d:response>
<d:response><d:href>/webdav/Vistas%20(solo%20navegar)/</d:href><d:propstat><d:prop><d:resourcetype><d:collection/></d:resourcetype><oc:permissions>G</oc:permissions></d:prop></d:propstat></d:response>
<d:response><d:href>/webdav/nota.md</d:href><d:propstat><d:prop><d:resourcetype/><d:getcontentlength>12</d:getcontentlength></d:prop></d:propstat></d:response>
</d:multistatus>"#;

#[test]
fn parses_multistatus() {
    let l = parse_multistatus(XML, "", "/webdav/").unwrap();
    assert_eq!(l.path, "");
    assert!(!l.can_upload);
    let names: Vec<_> = l.entries.iter().map(|e| e.name.as_str()).collect();
    assert_eq!(names, vec!["Clientes", "General", "Vistas (solo navegar)", "nota.md"]);
    assert!(!l.entries[0].can_upload);
    assert!(l.entries[1].can_upload);
    assert!(!l.entries[2].can_upload);
    assert!(!l.entries[3].is_folder);
    assert_eq!(l.entries[3].size, Some(12));
}

#[test]
fn multistatus_paths_and_folder_order() {
    let xml = r#"<d:multistatus xmlns:d="DAV:">
<d:response><d:href>https://x.example/webdav/General/</d:href><d:propstat><d:prop><d:resourcetype><d:collection/></d:resourcetype></d:prop></d:propstat></d:response>
<d:response><d:href>/webdav/General/zeta.txt</d:href><d:propstat><d:prop><d:resourcetype/><d:getcontentlength> 7 </d:getcontentlength></d:prop></d:propstat></d:response>
<d:response><d:href>/webdav/General/Alfa.txt</d:href><d:propstat><d:prop><d:resourcetype/><d:getcontentlength>x</d:getcontentlength></d:prop></d:propstat></d:response>
<d:response><d:href>/webdav/General/sub/</d:href><d:propstat><d:prop><d:displayname>  </d:displayname><d:resourcetype><d:collection/></d:resourcetype></d:prop></d:propstat></d:response>
</d:multistatus>"#;
    let l = parse_multistatus(xml, "/General/", "/webdav/General/").unwrap();
    assert_eq!(l.path, "General");
    // The folder itself, with no permissions given, accepts uploads.
    assert!(l.can_upload);
    let names: Vec<_> = l.entries.iter().map(|e| e.name.as_str()).collect();
    assert_eq!(names, vec!["sub", "Alfa.txt", "zeta.txt"]);
    assert_eq!(l.entries[0].path, "General/sub");
    assert!(l.entries[0].is_folder && l.entries[0].can_upload);
    // Files never accept uploads.
    assert!(!l.entries[1].can_upload);
    assert_eq!(l.entries[1].size, None);
    assert_eq!(l.entries[2].size, Some(7));
}

#[test]
fn browse_only_folder_refuses_uploads() {
    let xml = r#"<d:multistatus xmlns:d="DAV:" xmlns:oc="http://owncloud.org/ns">
<d:response><d:href>/webdav/Vistas%20(solo%20navegar)/A/</d:href><d:propstat><d:prop><d:resourcetype><d:collection/></d:resourcetype><oc:permissions>GC</oc:permissions></d:prop></d:propstat></d:response>
</d:multistatus>"#;
    let l = parse_multistatus(xml, "Vistas (solo navegar)", "/webdav/Vistas%20(solo%20navegar)/").unwrap();
    assert!(!l.can_upload);
    assert_eq!(l.entries.len(), 1);
    assert_eq!(l.entries[0].path, "Vistas (solo navegar)/A");
    assert!(!l.entries[0].can_upload);
}

#[test]
fn invalid_multistatus_is_an_error() {
    assert!(parse_multistatus("<d:multistatus>", "", "/webdav/").is_err());
    let l = parse_multistatus("<a/>", "", "/webdav/").unwrap();
    assert!(l.entries.is_empty());
    assert!(l.can_upload);
}

#[test]
fn root_folders_of_a_connection() {
    let l = parse_multistatus(XML, "", "/webdav/").unwrap();
    let info = connection_info("https://demo.iurefficient.com/", &l);
    assert_eq!(info.web_url, "https://demo.iurefficient.com/");
    assert_eq!(info.root_folders, vec!["Clientes", "General", "Vistas (solo navegar)"]);
}

#[test]
fn statuses_are_explained() {
    assert_eq!(explain_status(401), "Credenciales rechazadas. Revisa el correo y la contraseña de aplicación (iurdav_…).");
    assert_eq!(explain_status(413), "El archivo supera el tamaño máximo que acepta la instancia.");
    assert_eq!(explain_status(500), "El servidor respondió 500 Internal Server Error.");
}

#[test]
fn upload_outcomes() {
    let u = upload_outcome("minuta ñ.md", "/webdav/General/minuta%20%C3%B1.md", 201).unwrap();
    assert_eq!(u.file_name, "minuta ñ.md");
    assert_eq!(u.remote_path, "General/minuta ñ.md");
    assert!(u.created);
    let u = upload_outcome("a.md", "/webdav/a.md", 204).unwrap();
    assert!(!u.created);
    assert_eq!(u.remote_path, "a.md");
    assert_eq!(upload_outcome("a.md", "/webdav/a.md", 403).unwrap_err(), "a.md: Sin permiso para esa carpeta o usuario desactivado.");
}

#[test]
fn content_types() {
    assert_eq!(content_type_for("/tmp/x.SRT"), "application/x-subrip");
    assert_eq!(content_type_for("a.md"), "text/markdown; charset=utf-8");
    assert_eq!(content_type_for("a.opus"), "audio/ogg");
    assert_eq!(content_type_for("sin_extension"), "application/octet-stream");
    assert_eq!(content_type_for("a.xyz"), "application/octet-stream");
}

#[test]
fn unsigned_numbers() {
    let p = |s: &str| parse_u64(&s.chars().collect::<Vec<_>>());
    assert_eq!(p("12"), Some(12));
    assert_eq!(p("+7"), Some(7));
    assert_eq!(p("18446744073709551615"), Some(u64::MAX));
    assert_eq!(p("18446744073709551616"), None);
    assert_eq!(p(""), None);
    assert_eq!(p("+"), None);
    assert_eq!(p("-1"), None);
    assert_eq!(p("1 2"), None);
}

#[test]
fn account_fields() {
    let a = iuretranscribe::iurefficient::domain_address;
    assert_eq!(a(" 2.ds.iurefficient.com/ "), Ok("https://2.ds.iurefficient.com".to_string()));
    assert_eq!(a("https://demo.iurefficient.com/webdav/"), Ok("https://demo.iurefficient.com/webdav".to_string()));
    assert_eq!(a(" // "), Err("Indica el dominio de tu instancia (p. ej. 2.ds.iurefficient.com)".to_string()));
    let c = iuretranscribe::iurefficient::credentials;
    assert_eq!(c(" a@b.c ", " iurdav_x "), Ok(("a@b.c".to_string(), "iurdav_x".to_string())));
    assert_eq!(c("a@b.c", "  "), Err("Faltan el correo o la contraseña de aplicación".to_string()));
    assert_eq!(
        iuretranscribe::iurefficient::folder_segments("/Clientes//Acme S.A./Proyecto 1/"),
        vec!["Clientes", "Acme S.A.", "Proyecto 1"]
    );
    assert!(iuretranscribe::iurefficient::folder_segments("").is_empty());
}

#[test]
fn account_normalizes_domain() {
    let a = Account::new("2.ds.iurefficient.com", "a@b.c", "iurdav_x").unwrap();
    assert_eq!(a.web_url(), "https://2.ds.iurefficient.com/");
    let a = Account::new("https://demo.iurefficient.com/webdav/", "a@b.c", "iurdav_x").unwrap();
    assert_eq!(a.web_url(), "https://demo.iurefficient.com/");
    assert_eq!(a.webdav_url("Clientes/Acme S.A./Proyecto 1").unwrap(), "https://demo.iurefficient.com/webdav/Clientes/Acme%20S.A./Proyecto%201/");
    assert_eq!(a.file_url("General", "minuta ñ.md").unwrap(), "https://demo.iurefficient.com/webdav/General/minuta%20%C3%B1.md");
}

#[test]
fn account_errors() {
    assert_eq!(Account::new("  ", "a@b.c", "x").unwrap_err(), "Indica el dominio de tu instancia (p. ej. 2.ds.iurefficient.com)");
    assert!(Account::new("https://exa mple.com", "a@b.c", "x").unwrap_err().starts_with("Dominio no válido: "));
    assert_eq!(Account::new("demo.iurefficient.com", "a@b.c", " ").unwrap_err(), "Faltan el correo o la contraseña de aplicación");
    let a = Account::new("demo.iurefficient.com", " a@b.c ", " p ").unwrap();
    assert_eq!((a.email.as_str(), a.password.as_str()), ("a@b.c", "p"));
    assert_eq!(a.webdav_url("").unwrap(), "https://demo.iurefficient.com/webdav/");
}

#[test]
fn listing_from_parsed_nodes() {
    let n = |name: &str, text: Option<&str>, depth: usize| XmlNode { name: name.into(), text: text.map(String::from), depth };
    let nodes = vec![
        n("", None, 1),
        n("multistatus", None, 2),
        n("response", None, 3),
        n("href", Some("/webdav/Docs/a.md"), 4),
        n("resourcetype", None, 4),
        n("response", None, 3),
        n("href", Some("/webdav/Docs/B/"), 4),
        n("resourcetype", None, 4),
        n("collection", None, 5),
    ];
    let l = listing_from_nodes(&nodes, "Docs", "/webdav/Docs/");
    assert_eq!(l.path, "Docs");
    let names: Vec<_> = l.entries.iter().map(|e| e.name.as_str()).collect();
    assert_eq!(names, vec!["B", "a.md"]);
    assert!(l.entries[0].is_folder && l.entries[0].can_upload);
    assert_eq!(l.entries[1].path, "Docs/a.md");
}
