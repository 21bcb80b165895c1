use vstd::prelude::*;

verus! {

/// A language whose dialogue the game ships, with the archive files that
/// hold its text.
#[derive(Clone, Copy, Debug, PartialEq, Eq, Structural)]
pub enum Language {
    English,
    Japanese,
    SimplifiedChinese,
    TraditionalChinese,
}

impl Language {
    /// The human-readable name of the language.
    pub fn name(self) -> (r: &'static str)
        ensures
            r@ == match self {
                Language::English => "English"@,
                Language::Japanese => "Japanese"@,
                Language::TraditionalChinese => "Traditional Chinese"@,
                Language::SimplifiedChinese => "Simplified Chinese"@,
            },
    {
        match self {
            Language::English => "English",
            Language::Japanese => "Japanese",
            Language::TraditionalChinese => "Traditional Chinese",
            Language::SimplifiedChinese => "Simplified Chinese",
        }
    }

    /// The archive file that holds the language's base text.
    pub fn text_file_name(self) -> (r: &'static str)
        ensures
            r@ == match self {
                Language::Japanese => "app_text00.dx11.mvgl"@,
                Language::English => "app_text01.dx11.mvgl"@,
                Language::TraditionalChinese => "app_text02.dx11.mvgl"@,
                Language::SimplifiedChinese => "app_text03.dx11.mvgl"@,
            },
    {
        match self {
            Language::Japanese => "app_text00.dx11.mvgl",
            Language::English => "app_text01.dx11.mvgl",
            Language::TraditionalChinese => "app_text02.dx11.mvgl",
            Language::SimplifiedChinese => "app_text03.dx11.mvgl",
        }
    }

    /// The archive file whose entries patch the language's base text.
    pub fn patch_file_name(self) -> (r: &'static str)
        ensures
            r@ == match self {
                Language::Japanese => "patch_text00.dx11.mvgl"@,
                Language::English => "patch_text01.dx11.mvgl"@,
                Language::TraditionalChinese => "patch_text02.dx11.mvgl"@,
                Language::SimplifiedChinese => "patch_text03.dx11.mvgl"@,
            },
    {
        match self {
            Language::Japanese => "patch_text00.dx11.mvgl",
            Language::English => "patch_text01.dx11.mvgl",
            Language::TraditionalChinese => "patch_text02.dx11.mvgl",
            Language::SimplifiedChinese => "patch_text03.dx11.mvgl",
        }
    }
}

} // verus!
