//! The brand surface of the application (name, tagline, logos, welcome
//! texts) and the data URI of a custom logo.

use base64::Engine;
use vstd::prelude::*;

use crate::text::{chars_of, eq_ignore_case_at, push_str, string_from, eq_ignore_ascii_case};

verus! {

/// Texts of one scenario card of the home view.
#[derive(Debug, Clone)]
pub struct ScenarioText {
    pub label: String,
    pub subtitle: String,
    pub placeholder: String,
}

impl Default for ScenarioText {
    fn default() -> (r: Self)
        ensures
            r.label@ == Seq::<char>::empty(),
            r.subtitle@ == Seq::<char>::empty(),
            r.placeholder@ == Seq::<char>::empty(),
    {
        ScenarioText { label: String::new(), subtitle: String::new(), placeholder: String::new() }
    }
}

/// Welcome texts of the home view.
#[derive(Debug, Clone)]
pub struct HomeTexts {
    pub welcome_title: String,
    pub welcome_subtitle: String,
    pub task: ScenarioText,
    pub data_analysis: ScenarioText,
}

impl Default for HomeTexts {
    fn default() -> (r: Self)
        ensures
            r.welcome_title@ == Seq::<char>::empty(),
            r.welcome_subtitle@ == Seq::<char>::empty(),
            r.task.label@ == Seq::<char>::empty(),
            r.task.subtitle@ == Seq::<char>::empty(),
            r.task.placeholder@ == Seq::<char>::empty(),
            r.data_analysis.label@ == Seq::<char>::empty(),
            r.data_analysis.subtitle@ == Seq::<char>::empty(),
            r.data_analysis.placeholder@ == Seq::<char>::empty(),
    {
        HomeTexts {
            welcome_title: String::new(),
            welcome_subtitle: String::new(),
            task: ScenarioText::default(),
            data_analysis: ScenarioText::default(),
        }
    }
}

/// The whole brand surface; a missing field takes its default.
#[derive(Debug, Clone)]
pub struct BrandConfig {
    /// Application name (UI, window title, about dialog, assistant identity).
    pub app_name: String,
    /// Short tagline next to the name.
    pub tagline: String,
    /// One-line description in the about dialog.
    pub about_description: String,
    /// Custom logo file name in the data directory; empty: the built-in logo.
    pub logo_light: String,
    pub logo_dark: String,
    pub home: HomeTexts,
}

impl Default for BrandConfig {
    fn default() -> (r: Self)
        ensures
            r.app_name@ == "Daw"@,
            r.tagline@ == "Data Agent Workstation"@,
            r.about_description@ == "用对话驱动你的数据与任务。Daw 是开源的 Data Agent Workstation，改一份 brand.json 就能定制成你自己的专属工作台。"@,
            r.logo_light@ == Seq::<char>::empty(),
            r.logo_dark@ == Seq::<char>::empty(),
            r.home.welcome_title@ == "Daw"@,
            r.home.welcome_subtitle@ == "用对话驱动数据与任务"@,
            r.home.task.label@ == "日常任务"@,
            r.home.task.subtitle@ == "信息检索、知识问答、文案撰写——用对话完成任务，随时待命。"@,
            r.home.task.placeholder@ == "试试：「调研一下 XX 行业的最新动态」或「帮我写一份本周工作总结」"@,
            r.home.data_analysis.label@ == "数据分析"@,
            r.home.data_analysis.subtitle@ == "查询数据库、生成图表、沉淀业务知识——用对话驱动数据分析。"@,
            r.home.data_analysis.placeholder@ == "试试：「查看有哪些数据表」或「统计各区域今年销量并画个柱状图」"@,
    {
        BrandConfig {
            app_name: "Daw".to_owned(),
            tagline: "Data Agent Workstation".to_owned(),
            about_description: "用对话驱动你的数据与任务。Daw 是开源的 Data Agent Workstation，改一份 brand.json 就能定制成你自己的专属工作台。".to_owned(),
            logo_light: String::new(),
            logo_dark: String::new(),
            home: HomeTexts {
                welcome_title: "Daw".to_owned(),
                welcome_subtitle: "用对话驱动数据与任务".to_owned(),
                task: ScenarioText {
                    label: "日常任务".to_owned(),
                    subtitle: "信息检索、知识问答、文案撰写——用对话完成任务，随时待命。".to_owned(),
                    placeholder: "试试：「调研一下 XX 行业的最新动态」或「帮我写一份本周工作总结」".to_owned(),
                },
                data_analysis: ScenarioText {
                    label: "数据分析".to_owned(),
                    subtitle: "查询数据库、生成图表、沉淀业务知识——用对话驱动数据分析。".to_owned(),
                    placeholder: "试试：「查看有哪些数据表」或「统计各区域今年销量并画个柱状图」".to_owned(),
                },
            },
        }
    }
}

/// The logo file configured for a theme: `light`, or else the dark one.
pub fn logo_file<'a>(brand: &'a BrandConfig, kind: &str) -> (r: &'a String)
    ensures
        r@ == (if kind@ == "light"@ { brand.logo_light@ } else { brand.logo_dark@ }),
{
    if crate::text::str_eq(kind, "light") {
        &brand.logo_light
    } else {
        &brand.logo_dark
    }
}

/// Whether a file name ends in `.jpg` or `.jpeg` (ASCII case ignored), with
/// something before the dot.
pub open spec fn is_jpeg_name(name: Seq<char>) -> bool {
    (name.len() > 4 && name[name.len() - 4] == '.' && eq_ignore_ascii_case(name.skip(name.len() - 3), "jpg"@))
        || (name.len() > 5 && name[name.len() - 5] == '.' && eq_ignore_ascii_case(name.skip(name.len() - 4), "jpeg"@))
}

/// MIME type of a logo file: JPEG for `.jpg`/`.jpeg`, PNG otherwise.
pub open spec fn logo_mime_spec(name: Seq<char>) -> Seq<char> {
    if is_jpeg_name(name) { "image/jpeg"@ } else { "image/png"@ }
}

/// MIME type of a logo file (see [`logo_mime_spec`]).
pub fn logo_mime(name: &str) -> (r: &'static str)
    ensures
        r@ == logo_mime_spec(name@),
{
    let v = chars_of(name);
    let n = v.len();
    let jpg = chars_of("jpg");
    let jpeg = chars_of("jpeg");
    let a = n > 4 && v[n - 4] == '.' && eq_ignore_case_at(&v, n - 3, n, jpg.as_slice());
    let b = n > 5 && v[n - 5] == '.' && eq_ignore_case_at(&v, n - 4, n, jpeg.as_slice());
    proof {
        if n > 4 {
            assert(v@.subrange(n - 3, n as int) =~= v@.skip(n - 3));
        }
        if n > 5 {
            assert(v@.subrange(n - 4, n as int) =~= v@.skip(n - 4));
        }
    }
    if a || b { "image/jpeg" } else { "image/png" }
}

/// The digit of a 6-bit value in the standard base64 alphabet
/// (`A`-`Z`, `a`-`z`, `0`-`9`, `+`, `/`).
pub open spec fn base64_digit(v: int) -> char {
    if v < 26 {
        (65 + v) as char
    } else if v < 52 {
        (97 + v - 26) as char
    } else if v < 62 {
        (48 + v - 52) as char
    } else if v == 62 {
        '+'
    } else {
        '/'
    }
}

/// Standard base64 with `=` padding: each group of three bytes as four
/// digits of six bits each, most significant first; a last group of one or
/// two bytes as two or three digits (the missing bits zero) and `=`s.
pub open spec fn standard_base64(b: Seq<u8>) -> Seq<char>
    decreases b.len(),
{
    if b.len() == 0 {
        Seq::empty()
    } else if b.len() == 1 {
        let n = b[0] as int;
        seq![base64_digit(n / 4), base64_digit((n % 4) * 16), '=', '=']
    } else if b.len() == 2 {
        let n = b[0] as int * 256 + b[1] as int;
        seq![base64_digit(n / 1024), base64_digit((n / 16) % 64), base64_digit((n % 16) * 4), '=']
    } else {
        let n = b[0] as int * 65536 + b[1] as int * 256 + b[2] as int;
        seq![base64_digit(n / 262144), base64_digit((n / 4096) % 64), base64_digit((n / 64) % 64), base64_digit(n % 64)]
            + standard_base64(b.skip(3))
    }
}

/// `base64::engine::general_purpose::STANDARD.encode(bytes)`: the standard
/// alphabet with `=` padding (see [`standard_base64`]), four characters per
/// started group of three bytes. The crate panics when that length
/// overflows `usize`; the precondition excludes it.
#[verifier::external_body]
fn base64_encode(bytes: &[u8]) -> (r: String)
    requires
        bytes@.len() / 3 * 4 + 4 <= usize::MAX,
    ensures
        r@ == standard_base64(bytes@),
        r@.len() == (bytes@.len() + 2) / 3 * 4,
{
    base64::engine::general_purpose::STANDARD.encode(bytes)
}

/// `data:<mime>;base64,<payload>`.
pub fn data_uri(mime: &str, payload: &str) -> (r: String)
    ensures
        r@ == "data:"@ + mime@ + ";base64,"@ + payload@,
{
    let mut out: Vec<char> = Vec::new();
    push_str(&mut out, "data:");
    push_str(&mut out, mime);
    push_str(&mut out, ";base64,");
    push_str(&mut out, payload);
    string_from(out.as_slice())
}

/// The data URI a web view renders a logo file's bytes from.
pub fn logo_data_uri(name: &str, bytes: &[u8]) -> (r: String)
    requires
        bytes@.len() / 3 * 4 + 4 <= usize::MAX,
    ensures
        r@ == "data:"@ + logo_mime_spec(name@) + ";base64,"@ + standard_base64(bytes@),
{
    let mime = logo_mime(name);
    let b64 = base64_encode(bytes);
    data_uri(mime, b64.as_str())
}

} // verus!
