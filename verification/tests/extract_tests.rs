//! HTML extraction, size parsing, titles and the account rows.

use ygege::extract::{
    author_id_from_href, extract_param, extract_partial_torrent_infos, extract_torrents,
    keywords_from_texts, parse_category_tree, parse_field_num, parse_field_size,
    stats_from_cells,
};
use ygege::queries::{
    build_title_queries, fix_title, fix_titles, lookup_url, year_of_release_date, DbQueryType,
};
use ygege::sizes::{convert_size_to_bytes, human_readable_size_to_bytes};
use ygege::user::{apply_base_row, apply_stats_row, parse_account, UserAccount};
use ygege::config::{Config, LogLevel};

fn result_page() -> String {
    let mut h = String::new();
    h.push_str("<html><body><div id=\"#torrents\"><div class=\"table-responsive\">");
    h.push_str("<table><tbody>");
    h.push_str("<tr>");
    h.push_str("<td><div>2145</div></td>");
    h.push_str("<td><a id=\"torrent_name\" href=\"/torrent/films/sample/123-sample\">Sample Movie</a></td>");
    h.push_str("<td><a id=\"get_nfo\" target=\"123\"></a></td>");
    h.push_str("<td>4</td>");
    h.push_str("<td><div class=\"hidden\">1700000000</div>il y a 2 jours</td>");
    h.push_str("<td>1.5 Go</td>");
    h.push_str("<td>10</td>");
    h.push_str("<td>7</td>");
    h.push_str("<td>3</td>");
    h.push_str("</tr>");
    // a short row that must be dropped, not fail the page
    h.push_str("<tr><td>junk</td></tr>");
    h.push_str("</tbody></table></div></div></body></html>");
    h
}

#[test]
fn extracts_one_row_per_complete_row() {
    let page = result_page();
    let ts = extract_torrents(page.as_str(), "example.org").expect("results");
    assert_eq!(ts.len(), 1);
    let t = &ts[0];
    assert_eq!(t.category_id, 2145);
    assert_eq!(t.name, "Sample Movie");
    assert_eq!(t.id, 123);
    assert_eq!(t.comments_count, 4);
    assert_eq!(t.age_stamp, 1700000000);
    assert_eq!(t.size, 1610612736);
    assert_eq!(t.completed, 10);
    assert_eq!(t.seed, 7);
    assert_eq!(t.leech, 3);
    assert_eq!(t.link, "https://example.org/torrent/films/sample/123-sample");
    assert_eq!(t.info_url, "/torrent/info/films/sample/123-sample");
}

#[test]
fn no_results_marker_short_circuits() {
    let page = "<html><body>Aucun r\u{e9}sultat trouv\u{e9}</body></html>";
    let ts = extract_torrents(page, "example.org").expect("empty");
    assert!(ts.is_empty());
}

#[test]
fn missing_table_is_a_parse_error() {
    let page = "<html><body><p>nothing here</p></body></html>";
    assert!(extract_torrents(page, "example.org").is_err());
}

#[test]
fn category_menu_parses_into_the_tree() {
    let mut h = String::new();
    h.push_str("<html><body><div id=\"cat\"><ul>");
    h.push_str("<li>");
    h.push_str("<a href=\"/x?do=search&category=2145\">Films</a>");
    h.push_str("<a href=\"/x?do=search&category=2145&sub_category=2183\">Animation</a>");
    h.push_str("<a href=\"/x?do=search&category=2145&sub_category=2184\">Comedy</a>");
    h.push_str("</li>");
    h.push_str("<li class=\"misc\"><a href=\"/ignored?category=9\">Misc</a></li>");
    h.push_str("</ul></div></body></html>");
    let cats = parse_category_tree(h.as_str());
    assert_eq!(cats.len(), 1);
    assert_eq!(cats[0].id, 2145);
    assert_eq!(cats[0].name, "Films");
    let subs = &cats[0].sub_categories;
    assert_eq!(subs.len(), 2);
    assert_eq!(subs[0].id, 2183);
    assert_eq!(subs[0].name, "Animation");
    assert_eq!(subs[1].id, 2184);
    assert_eq!(subs[1].name, "Comedy");
}

#[test]
fn sizes_convert_exactly() {
    assert_eq!(human_readable_size_to_bytes("1.5 Go"), Ok(1610612736));
    assert_eq!(human_readable_size_to_bytes("12.5 Go"), Ok(13421772800));
    assert_eq!(human_readable_size_to_bytes("1 o"), Ok(1));
    assert_eq!(human_readable_size_to_bytes("3 ko"), Ok(3072));
    assert_eq!(human_readable_size_to_bytes("2To"), Ok(2199023255552));
    assert!(human_readable_size_to_bytes("12 pebibytes").is_err());
    assert!(human_readable_size_to_bytes("Go").is_err());
    assert!(human_readable_size_to_bytes("1.2.3 Go").is_err());
}

#[test]
fn account_sizes_convert_exactly() {
    assert_eq!(convert_size_to_bytes("1,5 Ko"), Ok(1536));
    assert_eq!(convert_size_to_bytes("2 Go"), Ok(2147483648));
    assert_eq!(convert_size_to_bytes("10o"), Ok(10));
    assert!(convert_size_to_bytes("weird").is_err());
}

#[test]
fn defensive_fields_fall_back_to_zero() {
    assert_eq!(parse_field_num(" 42 "), 42);
    assert_eq!(parse_field_num("n/a"), 0);
    assert_eq!(parse_field_size(" 1.5 Go "), 1610612736);
    assert_eq!(parse_field_size("mystery"), 0);
}

#[test]
fn query_parameters_are_extracted() {
    assert_eq!(
        extract_param("/x?do=search&category=2145&sub_category=2183", "category"),
        Some("2145".to_string())
    );
    assert_eq!(
        extract_param("/x?do=search&category=2145", "sub_category"),
        None
    );
    assert_eq!(extract_param("plain", "category"), None);
}

#[test]
fn detail_stats_walk_reads_pairs() {
    let cells = vec![
        "Mots cl\u{e9}s".to_string(),
        "action".to_string(),
        "Seeders".to_string(),
        "1 024".to_string(),
        "Leechers".to_string(),
        "17".to_string(),
        "Compl\u{e9}t\u{e9}s".to_string(),
        "2048".to_string(),
    ];
    let (seed, leech, done) = stats_from_cells(&cells);
    assert_eq!(seed, 1024);
    assert_eq!(leech, 17);
    assert_eq!(done, 2048);
}

#[test]
fn keywords_are_trimmed_and_kept_non_empty() {
    let texts = vec![" action ".to_string(), "  ".to_string(), "drama".to_string()];
    let kws = keywords_from_texts(&texts);
    assert_eq!(kws, vec!["action".to_string(), "drama".to_string()]);
}

#[test]
fn author_id_comes_from_the_profile_link() {
    assert_eq!(author_id_from_href("/profile/4321-someone"), 4321);
    assert_eq!(author_id_from_href("/profile/oops-1"), 0);
    assert_eq!(author_id_from_href("/elsewhere/4321"), 0);
}

#[test]
fn detail_page_yields_partial_infos() {
    let mut h = String::new();
    h.push_str("<html><body>");
    h.push_str("<section class=\"content\"><h2>Autre chose</h2></section>");
    h.push_str("<section class=\"content\"><h2>T\u{e9}l\u{e9}chargement & D\u{e9}tails</h2>");
    h.push_str("<table>");
    h.push_str("<tr><td>Mots cl\u{e9}s</td><td><a class=\"term\"> action </a><a class=\"term\">drama</a></td></tr>");
    h.push_str("<tr><td>Seeders</td><td>1 024</td><td>Leechers</td><td>17</td><td>Compl\u{e9}t\u{e9}s</td><td>2048</td></tr>");
    h.push_str("</table></section>");
    h.push_str("<table><tr><td>Upload\u{e9} le</td><td>01/01/2020 00:00 (il y a longtemps)</td></tr></table>");
    h.push_str("<td><a href=\"/profile/4321-someone\"> someone </a></td>");
    h.push_str("<div><div class=\"description-header\">Description</div>");
    h.push_str("<div> A short <b>blurb</b>. </div></div>");
    h.push_str("</body></html>");
    let d = extract_partial_torrent_infos(h.as_str());
    assert_eq!(d.seed, 1024);
    assert_eq!(d.leech, 17);
    assert_eq!(d.completed, 2048);
    assert_eq!(d.keywords, vec!["action".to_string(), "drama".to_string()]);
    assert_eq!(d.created_at, 1577836800);
    assert_eq!(d.author_name, "someone");
    assert_eq!(d.author_id, 4321);
    assert_eq!(d.html_description, "<div> A short <b>blurb</b>. </div>");
    assert_eq!(d.text_description, "A short  blurb .");
}

#[test]
fn account_rows_fill_the_record() {
    let mut acc = UserAccount::new_empty();
    apply_base_row(&mut acc, "Pseudo :", "someone (VIP)");
    apply_base_row(&mut acc, "Mes torrents", "12");
    apply_base_row(&mut acc, "Commentaires", "34");
    apply_base_row(&mut acc, "R\u{e9}putation", "-5");
    apply_base_row(&mut acc, "Date d'inscription", "01/01/2020");
    apply_stats_row(&mut acc, "Passkey", "SECRET-REDACTED");
    apply_stats_row(&mut acc, "Qtt upload\u{e9}e", "1,5 Ko");
    apply_stats_row(&mut acc, "Qtt t\u{e9}l\u{e9}charg\u{e9}e", "2 Go");
    assert_eq!(acc.username, "someone");
    assert_eq!(acc.rank, "VIP");
    assert_eq!(acc.torrents_count, 12);
    assert_eq!(acc.comments_count, 34);
    assert_eq!(acc.reputation_score, -5);
    assert_eq!(acc.join_date, "01/01/2020");
    assert_eq!(acc.passkey, "SECRET-REDACTED");
    assert_eq!(acc.uploaded, 1536);
    assert_eq!(acc.downloaded, 2147483648);
}

#[test]
fn account_page_parses_in_three_parts() {
    let mut h = String::new();
    h.push_str("<html><body>");
    h.push_str("<table class=\"detail-account\">");
    h.push_str("<tr><td>Pseudo :</td><td>someone (VIP)</td></tr>");
    h.push_str("<tr><td>Mes torrents</td><td>12</td></tr>");
    h.push_str("</table>");
    h.push_str("<section class=\"content\"><h2>Informations relatives au Tracker</h2>");
    h.push_str("<table><tr><td>Passkey</td><td>SECRET-REDACTED</td></tr>");
    h.push_str("<tr><td>Qtt upload\u{e9}e</td><td>2 Go</td></tr></table></section>");
    h.push_str("<img class=\"card-img-top\" src=\"/avatar.png\">");
    h.push_str("<input name=\"email\" value=\"someone@example.org\">");
    h.push_str("<input name=\"age\" value=\"33\">");
    h.push_str("</body></html>");
    let acc = parse_account(h.as_str());
    assert_eq!(acc.username, "someone");
    assert_eq!(acc.rank, "VIP");
    assert_eq!(acc.torrents_count, 12);
    assert_eq!(acc.passkey, "SECRET-REDACTED");
    assert_eq!(acc.uploaded, 2147483648);
    assert_eq!(acc.downloaded, 0);
    assert_eq!(acc.avatar_url, "/avatar.png");
    assert_eq!(acc.email, "someone@example.org");
    assert_eq!(acc.age, Some(33));
    assert!(acc.gender.is_none());
    assert!(acc.country.is_none());
}

#[test]
fn titles_are_cleaned_for_queries() {
    assert_eq!(fix_title("Am\u{e9}lie"), "Amelie");
    assert_eq!(fix_title("  L\u{2019}\u{e9}cole, bizarre!  "), "L ecole  bizarre");
    let fixed = fix_titles(vec!["\u{152}uvre".to_string()]);
    assert_eq!(fixed, vec!["Oeuvre".to_string()]);
}

#[test]
fn title_queries_join_year_and_filter_regions() {
    let qs = build_title_queries(
        &"Le Fabuleux Destin".to_string(),
        &"Amelie".to_string(),
        2001,
        vec![
            ("US".to_string(), "Amelie from Montmartre".to_string()),
            ("DE".to_string(), "Die fabelhafte Welt".to_string()),
        ],
    );
    assert_eq!(qs.len(), 3);
    assert_eq!(qs[0], "Le Fabuleux Destin 2001");
    assert_eq!(qs[1], "Amelie 2001");
    assert_eq!(qs[2], "Amelie from Montmartre 2001");
}

#[test]
fn release_year_is_read_off_the_date() {
    assert_eq!(year_of_release_date("2001-07-25"), 2001);
    assert_eq!(year_of_release_date("2001"), 2001);
    assert_eq!(year_of_release_date("soon"), 0);
}

#[test]
fn lookup_urls_per_database() {
    assert_eq!(
        lookup_url("550", DbQueryType::TMDB),
        "https://api.themoviedb.org/3/movie/550"
    );
    assert_eq!(
        lookup_url("tt0137523", DbQueryType::IMDB),
        "https://api.themoviedb.org/3/find/tt0137523?external_source=imdb_id"
    );
}

#[test]
fn config_placeholder_and_levels() {
    let c = Config::placeholder();
    assert!(!c.credentials_set());
    let ready = Config {
        username: "real_user".to_string(),
        password: "real_pass".to_string(),
        ..c
    };
    assert!(ready.credentials_set());
    assert_eq!(LogLevel::Debug.as_str(), "debug");
    assert!(matches!(LogLevel::from_str("warn"), Some(LogLevel::Warn)));
    assert!(LogLevel::from_str("loud").is_none());
}
