use beebotos_launcher::env::{
    find_env_value, format_env_value, is_launcher_managed_key, load_env_config, parse_env_line,
    push_key_value, render_env_config, render_env_config_with_secret, EnvConfig,
    ALLOW_NETWORK_KEY, IMAGE_GENERATION_KEY, JWT_SECRET_KEY, TEXT_MODEL_KEY,
    VIDEO_GENERATION_KEY, WEB_CONSOLE_URL,
};
use beebotos_launcher::secret::{generate_jwt_secret, secret_from_uuid_bytes};

fn config(text: &str, image: &str, video: &str) -> EnvConfig {
    EnvConfig {
        text_model_key: text.to_string(),
        image_generation_key: image.to_string(),
        video_generation_key: video.to_string(),
    }
}

const LONG_SECRET: &str = "0123456789abcdef0123456789abcdef";

#[test]
fn key_names() {
    assert_eq!(TEXT_MODEL_KEY, "DEEPSEEK_API_KEY");
    assert_eq!(IMAGE_GENERATION_KEY, "IMAGE_GENERATION_API_KEY");
    assert_eq!(VIDEO_GENERATION_KEY, "VIDEO_GENERATION_API_KEY");
    assert_eq!(ALLOW_NETWORK_KEY, "BEE_ALLOW_NETWORK");
    assert_eq!(JWT_SECRET_KEY, "BEE__JWT__SECRET");
    assert_eq!(WEB_CONSOLE_URL, "http://localhost:8090");
}

#[test]
fn default_config_is_empty() {
    assert_eq!(EnvConfig::default(), config("", "", ""));
}

#[test]
fn parse_line_plain() {
    assert_eq!(parse_env_line("KEY=value"), Some(("KEY", "value")));
    assert_eq!(parse_env_line("  KEY  =  value  "), Some(("KEY", "value")));
    assert_eq!(parse_env_line("K=a=b"), Some(("K", "a=b")));
    assert_eq!(parse_env_line("K="), Some(("K", "")));
}

#[test]
fn parse_line_skipped() {
    assert_eq!(parse_env_line(""), None);
    assert_eq!(parse_env_line("   \t "), None);
    assert_eq!(parse_env_line("# KEY=value"), None);
    assert_eq!(parse_env_line("   #KEY=value"), None);
    assert_eq!(parse_env_line("no equals sign"), None);
    assert_eq!(parse_env_line("  = value"), None);
}

#[test]
fn parse_line_quotes() {
    assert_eq!(parse_env_line("K=\"a b\""), Some(("K", "a b")));
    assert_eq!(parse_env_line("K=' a '"), Some(("K", " a ")));
    assert_eq!(parse_env_line("K=\"\""), Some(("K", "")));
    assert_eq!(parse_env_line("K=\""), Some(("K", "\"")));
    assert_eq!(parse_env_line("K=\"a'"), Some(("K", "\"a'")));
    assert_eq!(parse_env_line("K=\"a\\\"b\""), Some(("K", "a\\\"b")));
}

#[test]
fn load_reads_model_keys() {
    let content = "# comment\nDEEPSEEK_API_KEY=sk-text\r\nIMAGE_GENERATION_API_KEY = \"img key\"\nOTHER=1\nVIDEO_GENERATION_API_KEY='vid'\n";
    assert_eq!(load_env_config(content), config("sk-text", "img key", "vid"));
}

#[test]
fn load_last_line_wins() {
    let content = "DEEPSEEK_API_KEY=first\nDEEPSEEK_API_KEY=second";
    assert_eq!(load_env_config(content), config("second", "", ""));
}

#[test]
fn load_empty_content() {
    assert_eq!(load_env_config(""), EnvConfig::default());
    assert_eq!(load_env_config("\n\n\r\n"), EnvConfig::default());
}

#[test]
fn find_value_first_match() {
    let content = "A=1\nB=2\nA=3\n";
    assert_eq!(find_env_value(content, "A"), Some("1"));
    assert_eq!(find_env_value(content, "B"), Some("2"));
    assert_eq!(find_env_value(content, "C"), None);
    assert_eq!(find_env_value("#A=1", "A"), None);
}

#[test]
fn managed_keys() {
    for key in [
        TEXT_MODEL_KEY,
        IMAGE_GENERATION_KEY,
        VIDEO_GENERATION_KEY,
        ALLOW_NETWORK_KEY,
        JWT_SECRET_KEY,
    ] {
        assert!(is_launcher_managed_key(key));
    }
    assert!(!is_launcher_managed_key("PATH"));
    assert!(!is_launcher_managed_key("deepseek_api_key"));
    assert!(!is_launcher_managed_key(""));
}

#[test]
fn format_values() {
    assert_eq!(format_env_value("abc"), "abc");
    assert_eq!(format_env_value("a\\b"), "a\\b");
    assert_eq!(format_env_value("a b"), "\"a b\"");
    assert_eq!(format_env_value("a#b"), "\"a#b\"");
    assert_eq!(format_env_value("it's"), "\"it's\"");
    assert_eq!(format_env_value("say \"hi\""), "\"say \\\"hi\\\"\"");
    assert_eq!(format_env_value("a\\ b"), "\"a\\\\ b\"");
    assert_eq!(format_env_value(""), "");
}

#[test]
fn push_key_value_skips_blank() {
    let mut lines = vec!["X=1".to_string()];
    push_key_value(&mut lines, "K", "   ");
    assert_eq!(lines, vec!["X=1".to_string()]);
    push_key_value(&mut lines, "K", "  v w ");
    assert_eq!(lines, vec!["X=1".to_string(), "K=\"v w\"".to_string()]);
}

#[test]
fn render_with_given_secret() {
    let existing = "# settings\nDEEPSEEK_API_KEY=old\r\nPORT=8080\nBEE_ALLOW_NETWORK=0";
    let out = render_env_config_with_secret(existing, &config(" new ", "", "two words"), "S");
    assert_eq!(
        out,
        "# settings\nPORT=8080\nDEEPSEEK_API_KEY=new\nVIDEO_GENERATION_API_KEY=\"two words\"\nBEE_ALLOW_NETWORK=1\nBEE__JWT__SECRET=S\n"
    );
}

#[test]
fn render_keeps_long_secret() {
    let existing = format!("BEE__JWT__SECRET={LONG_SECRET}\n");
    let out = render_env_config_with_secret(&existing, &config("", "", ""), "fresh");
    assert_eq!(out, format!("BEE_ALLOW_NETWORK=1\nBEE__JWT__SECRET={LONG_SECRET}\n"));
    let out = render_env_config(&existing, &config("k", "", ""));
    assert_eq!(
        out,
        format!("DEEPSEEK_API_KEY=k\nBEE_ALLOW_NETWORK=1\nBEE__JWT__SECRET={LONG_SECRET}\n")
    );
}

#[test]
fn render_replaces_short_secret() {
    let existing = "BEE__JWT__SECRET=short\n";
    let out = render_env_config_with_secret(existing, &config("", "", ""), "fresh");
    assert_eq!(out, "BEE_ALLOW_NETWORK=1\nBEE__JWT__SECRET=fresh\n");
    let out = render_env_config(existing, &config("", "", ""));
    let secret = find_env_value(&out, JWT_SECRET_KEY).unwrap();
    assert_ne!(secret, "short");
    assert!(secret.starts_with("bee-jwt-"));
    assert_eq!(secret.len(), 72);
}

#[test]
fn secret_length_counts_bytes() {
    // 16 two-byte characters make 32 bytes
    let existing = format!("BEE__JWT__SECRET={}\n", "é".repeat(16));
    let out = render_env_config_with_secret(&existing, &config("", "", ""), "fresh");
    assert!(out.ends_with(&format!("BEE__JWT__SECRET={}\n", "é".repeat(16))));
    let existing = format!("BEE__JWT__SECRET={}\n", "é".repeat(15));
    let out = render_env_config_with_secret(&existing, &config("", "", ""), "fresh");
    assert!(out.ends_with("BEE__JWT__SECRET=fresh\n"));
}

#[test]
fn written_keys_read_back() {
    let cfg = config("  sk-abc  ", "img key#1", "it's");
    let out = render_env_config("OTHER=1\n", &cfg);
    assert_eq!(load_env_config(&out), config("sk-abc", "img key#1", "it's"));
}

#[test]
fn written_keys_with_quotes_read_back_escaped() {
    let cfg = config("a\"b", "", "");
    let out = render_env_config("", &cfg);
    assert_eq!(load_env_config(&out).text_model_key, "a\\\"b");
}

#[test]
fn rewrite_keeps_file() {
    let first = render_env_config("# mine\nPORT=1\n", &config("k1", "k 2", ""));
    let again = render_env_config(&first, &load_env_config(&first));
    assert_eq!(again, first);
}

#[test]
fn generated_secret_shape() {
    let s = generate_jwt_secret();
    assert!(s.starts_with("bee-jwt-"));
    assert_eq!(s.len(), 72);
    let hex = &s[8..];
    assert!(hex.chars().all(|c| c.is_ascii_digit() || ('a'..='f').contains(&c)));
    // version nibble of each UUID
    assert_eq!(&hex[12..13], "4");
    assert_eq!(&hex[44..45], "4");
    assert!(matches!(&hex[16..17], "8" | "9" | "a" | "b"));
    assert_ne!(generate_jwt_secret(), s);
}

#[test]
fn secret_from_given_bytes() {
    let a = [0u8, 1, 2, 3, 4, 5, 0x46, 7, 0x89, 9, 10, 11, 12, 13, 14, 0xff];
    let b = [0xabu8; 16];
    assert_eq!(
        secret_from_uuid_bytes(a, b),
        format!("bee-jwt-000102030405460789090a0b0c0d0eff{}", "ab".repeat(16))
    );
}

#[test]
fn save_twice_keeps_file() {
    let cfg = config("say \"hi\"", "a\\b c", "");
    let first = render_env_config("# mine\nPORT=1\n", &cfg);
    assert_eq!(render_env_config(&first, &cfg), first);
}

#[test]
fn each_managed_key_once() {
    let existing = "DEEPSEEK_API_KEY=a\nBEE_ALLOW_NETWORK=0\nBEE__JWT__SECRET=x\nDEEPSEEK_API_KEY=b\n";
    let out = render_env_config(existing, &config("k", "", "v"));
    let keys: Vec<&str> = out.lines().filter_map(|l| parse_env_line(l).map(|(k, _)| k)).collect();
    for (key, n) in [
        (TEXT_MODEL_KEY, 1),
        (IMAGE_GENERATION_KEY, 0),
        (VIDEO_GENERATION_KEY, 1),
        (ALLOW_NETWORK_KEY, 1),
        (JWT_SECRET_KEY, 1),
    ] {
        assert_eq!(keys.iter().filter(|k| **k == key).count(), n, "{key}");
    }
    assert_eq!(find_env_value(&out, ALLOW_NETWORK_KEY), Some("1"));
}

#[test]
fn quoted_value_unquotes_back() {
    for v in ["plain", "two words", "it's", "#hash"] {
        let line = format!("K={}", format_env_value(v));
        assert_eq!(parse_env_line(&line), Some(("K", v)));
    }
}

#[test]
fn quoted_secret_with_spaces_changes_on_second_save() {
    let existing = format!("BEE__JWT__SECRET=\" {LONG_SECRET} \"\n");
    let cfg = config("", "", "");
    let first = render_env_config(&existing, &cfg);
    assert_eq!(first, format!("BEE_ALLOW_NETWORK=1\nBEE__JWT__SECRET= {LONG_SECRET} \n"));
    let second = render_env_config(&first, &cfg);
    assert_eq!(second, format!("BEE_ALLOW_NETWORK=1\nBEE__JWT__SECRET={LONG_SECRET}\n"));
    assert_eq!(render_env_config(&second, &cfg), second);
}
