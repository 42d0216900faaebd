//! Writing a configuration and reading it back.
use vstd::prelude::*;

use crate::config::{
    apply_key, bool_text, comment_cut, config_upto, default_view, drop_cr, find_char, find_key,
    header_line, indent_text, join_lines, join_quoted, line_kind, list_text, no_quotes, pair_line,
    quoted, section_line, spec_config, spec_is_chord, spec_key_name, spec_parse_str,
    spec_parse_toml, spec_parse_value, strip_comment, strs_of, text_lines, toml_lines, toml_text,
    toml_upto, ConfigView, LineKind, TomlState, VView,
};
use crate::text::{
    all_digits, decimal, digit_char, digits_value, free_of, int_text, is_digit, is_ws,
    lemma_split_plain, lemma_trim_between, lemma_trim_same, spec_parse_i64, spec_trim, split_on,
    unsigned_part,
};
use crate::display::{AllahForm, TanweenStyle};

verus! {

/// The number of the configuration key named `s` (for the 36 key names).
spec fn key_code(s: Seq<char>) -> int {
    if s.len() == 6 { 0 } else if s.len() == 11 { 18 } else if s.len() == 13 { 30 } else if s.len() == 14 { 21 } else if s.len() == 15 { if s[0] == 'a' { 31 } else { 13 } } else if s.len() == 16 { if s[0] == 'a' { 25 } else if s[0] == 'l' { 22 } else { 15 } } else if s.len() == 17 { 33 } else if s.len() == 18 { if s[0] == 'g' { 2 } else { 34 } } else if s.len() == 19 { if s[0] == 'g' { 1 } else if s[0] == 'k' { 35 } else if s[0] == 's' { if s[6] == 't' { 17 } else { 19 } } else { 5 } } else if s.len() == 20 { 27 } else if s.len() == 21 { if s[0] == 'g' { 4 } else { 6 } } else if s.len() == 22 { if s[0] == 'a' { 26 } else { 9 } } else if s.len() == 23 { if s[0] == 'a' { if s[3] == 'e' { 28 } else { 32 } } else if s[0] == 's' { 16 } else { 10 } } else if s.len() == 24 { if s[0] == 'd' { 14 } else { 20 } } else if s.len() == 25 { 12 } else if s.len() == 26 { 7 } else if s.len() == 27 { if s[0] == 'l' { 23 } else { 11 } } else if s.len() == 28 { 24 } else { if s[0] == 'a' { 29 } else if s[0] == 'g' { 3 } else { 8 } }
}

proof fn lemma_key_codes()
    ensures
        forall|i: int| 0 <= i < 36 ==> key_code(#[trigger] spec_key_name(i)) == i,
{
    assert(key_code(spec_key_name(0)) == 0) by {
        reveal_strlit("schema");
    }
    assert(key_code(spec_key_name(1)) == 1) by {
        reveal_strlit("general.mode_toggle");
    }
    assert(key_code(spec_key_name(2)) == 2) by {
        reveal_strlit("general.mode_scope");
    }
    assert(key_code(spec_key_name(3)) == 3) by {
        reveal_strlit("general.global_hotkey_enabled");
    }
    assert(key_code(spec_key_name(4)) == 4) by {
        reveal_strlit("general.global_hotkey");
    }
    assert(key_code(spec_key_name(5)) == 5) by {
        reveal_strlit("typing.latin_layout");
    }
    assert(key_code(spec_key_name(6)) == 6) by {
        reveal_strlit("typing.inline_preview");
    }
    assert(key_code(spec_key_name(7)) == 7) by {
        reveal_strlit("typing.candidates_per_page");
    }
    assert(key_code(spec_key_name(8)) == 8) by {
        reveal_strlit("typing.predictive_completions");
    }
    assert(key_code(spec_key_name(9)) == 9) by {
        reveal_strlit("typing.article_joining");
    }
    assert(key_code(spec_key_name(10)) == 10) by {
        reveal_strlit("typing.reedit_backspace");
    }
    assert(key_code(spec_key_name(11)) == 11) by {
        reveal_strlit("typing.commit_on_focus_loss");
    }
    assert(key_code(spec_key_name(12)) == 12) by {
        reveal_strlit("typing.latin_in_url_email");
    }
    assert(key_code(spec_key_name(13)) == 13) by {
        reveal_strlit("dialect.profile");
    }
    assert(key_code(spec_key_name(14)) == 14) by {
        reveal_strlit("dialect.seed_from_region");
    }
    assert(key_code(spec_key_name(15)) == 15) by {
        reveal_strlit("style.allah_form");
    }
    assert(key_code(spec_key_name(16)) == 16) by {
        reveal_strlit("style.adverbial_tanween");
    }
    assert(key_code(spec_key_name(17)) == 17) by {
        reveal_strlit("style.tanween_style");
    }
    assert(key_code(spec_key_name(18)) == 18) by {
        reveal_strlit("style.hamza");
    }
    assert(key_code(spec_key_name(19)) == 19) by {
        reveal_strlit("style.vowel_harakat");
    }
    assert(key_code(spec_key_name(20)) == 20) by {
        reveal_strlit("style.arabic_punctuation");
    }
    assert(key_code(spec_key_name(21)) == 21) by {
        reveal_strlit("style.numerals");
    }
    assert(key_code(spec_key_name(22)) == 22) by {
        reveal_strlit("learning.enabled");
    }
    assert(key_code(spec_key_name(23)) == 23) by {
        reveal_strlit("learning.sticky_last_choice");
    }
    assert(key_code(spec_key_name(24)) == 24) by {
        reveal_strlit("privacy.use_surrounding_text");
    }
    assert(key_code(spec_key_name(25)) == 25) by {
        reveal_strlit("appearance.theme");
    }
    assert(key_code(spec_key_name(26)) == 26) by {
        reveal_strlit("appearance.font_family");
    }
    assert(key_code(spec_key_name(27)) == 27) by {
        reveal_strlit("appearance.font_size");
    }
    assert(key_code(spec_key_name(28)) == 28) by {
        reveal_strlit("appearance.footer_hints");
    }
    assert(key_code(spec_key_name(29)) == 29) by {
        reveal_strlit("appearance.show_dialect_badge");
    }
    assert(key_code(spec_key_name(30)) == 30) by {
        reveal_strlit("apps.excluded");
    }
    assert(key_code(spec_key_name(31)) == 31) by {
        reveal_strlit("apps.rtl_assist");
    }
    assert(key_code(spec_key_name(32)) == 32) by {
        reveal_strlit("apps.rtl_assist_classes");
    }
    assert(key_code(spec_key_name(33)) == 33) by {
        reveal_strlit("keys.commit_latin");
    }
    assert(key_code(spec_key_name(34)) == 34) by {
        reveal_strlit("keys.open_tashkeel");
    }
    assert(key_code(spec_key_name(35)) == 35) by {
        reveal_strlit("keys.commit_harakat");
    }
    assert forall|i: int| 0 <= i < 36 implies key_code(#[trigger] spec_key_name(i)) == i by {
        if i == 0 {
        } else if i == 1 {
        } else if i == 2 {
        } else if i == 3 {
        } else if i == 4 {
        } else if i == 5 {
        } else if i == 6 {
        } else if i == 7 {
        } else if i == 8 {
        } else if i == 9 {
        } else if i == 10 {
        } else if i == 11 {
        } else if i == 12 {
        } else if i == 13 {
        } else if i == 14 {
        } else if i == 15 {
        } else if i == 16 {
        } else if i == 17 {
        } else if i == 18 {
        } else if i == 19 {
        } else if i == 20 {
        } else if i == 21 {
        } else if i == 22 {
        } else if i == 23 {
        } else if i == 24 {
        } else if i == 25 {
        } else if i == 26 {
        } else if i == 27 {
        } else if i == 28 {
        } else if i == 29 {
        } else if i == 30 {
        } else if i == 31 {
        } else if i == 32 {
        } else if i == 33 {
        } else if i == 34 {
        } else if i == 35 {
        }
    }
}

proof fn lemma_find_key_from(i: int, j: int)
    requires
        0 <= j <= i < 36,
    ensures
        find_key(spec_key_name(i), j) == Some(i),
    decreases i - j,
{
    if j < i {
        lemma_key_codes();
        assert(key_code(spec_key_name(j)) == j);
        assert(key_code(spec_key_name(i)) == i);
        lemma_find_key_from(i, j + 1);
    }
}

/// The value written for key number `i` of `c`.
pub open spec fn key_value(c: ConfigView, i: int) -> VView {
    if i == 0 {
        VView::Int(c.schema)
    } else if i == 1 {
        VView::Str(c.mode_toggle)
    } else if i == 2 {
        VView::Str(c.mode_scope)
    } else if i == 3 {
        VView::Bool(c.global_hotkey_enabled)
    } else if i == 4 {
        VView::Str(c.global_hotkey)
    } else if i == 5 {
        VView::Str(c.latin_layout)
    } else if i == 6 {
        VView::Str(c.inline_preview)
    } else if i == 7 {
        VView::Int(c.candidates_per_page)
    } else if i == 8 {
        VView::Bool(c.predictive_completions)
    } else if i == 9 {
        VView::Bool(c.article_joining)
    } else if i == 10 {
        VView::Bool(c.reedit_backspace)
    } else if i == 11 {
        VView::Str(c.commit_on_focus_loss)
    } else if i == 12 {
        VView::Bool(c.latin_in_url_email)
    } else if i == 13 {
        VView::Str(c.dialect_profile)
    } else if i == 14 {
        VView::Bool(c.seed_from_region)
    } else if i == 15 {
        VView::Str(c.allah_form)
    } else if i == 16 {
        VView::Bool(c.adverbial_tanween)
    } else if i == 17 {
        VView::Str(c.tanween_style)
    } else if i == 18 {
        VView::Str(c.hamza)
    } else if i == 19 {
        VView::Str(c.vowel_harakat)
    } else if i == 20 {
        VView::Bool(c.arabic_punctuation)
    } else if i == 21 {
        VView::Str(c.numerals)
    } else if i == 22 {
        VView::Bool(c.learning_enabled)
    } else if i == 23 {
        VView::Bool(c.sticky_last_choice)
    } else if i == 24 {
        VView::Bool(c.use_surrounding_text)
    } else if i == 25 {
        VView::Str(c.theme)
    } else if i == 26 {
        VView::Str(c.font_family)
    } else if i == 27 {
        VView::Int(c.font_size)
    } else if i == 28 {
        VView::Str(c.footer_hints)
    } else if i == 29 {
        VView::Bool(c.show_dialect_badge)
    } else if i == 30 {
        VView::List(c.excluded_apps)
    } else if i == 31 {
        VView::Bool(c.rtl_assist)
    } else if i == 32 {
        VView::List(c.rtl_assist_classes)
    } else if i == 33 {
        VView::Str(c.key_commit_latin)
    } else if i == 34 {
        VView::Str(c.key_open_tashkeel)
    } else {
        VView::Str(c.key_commit_harakat)
    }
}

/// Every value of `c` passes its key's check.
pub open spec fn valid_view(c: ConfigView) -> bool {
    &&& 5 <= c.candidates_per_page <= 9
    &&& AllahForm::spec_parse(c.allah_form) is Some
    &&& TanweenStyle::spec_parse(c.tanween_style) is Some
    &&& 14 <= c.font_size <= 28
    &&& spec_is_chord(c.key_commit_latin)
    &&& spec_is_chord(c.key_open_tashkeel)
    &&& spec_is_chord(c.key_commit_harakat)
}

/// The `(key, value)` pairs a configuration is written as, in key order.
pub open spec fn toml_pairs(c: ConfigView) -> Seq<(Seq<char>, VView)> {
    Seq::new(36, |i: int| (spec_key_name(i), key_value(c, i)))
}

/// The first `n` keys from `c`, the others from `d`.
pub open spec fn prefix_view(c: ConfigView, d: ConfigView, n: int) -> ConfigView {
    ConfigView {
        schema: if 0 < n { c.schema } else { d.schema },
        mode_toggle: if 1 < n { c.mode_toggle } else { d.mode_toggle },
        mode_scope: if 2 < n { c.mode_scope } else { d.mode_scope },
        global_hotkey_enabled: if 3 < n { c.global_hotkey_enabled } else { d.global_hotkey_enabled },
        global_hotkey: if 4 < n { c.global_hotkey } else { d.global_hotkey },
        latin_layout: if 5 < n { c.latin_layout } else { d.latin_layout },
        inline_preview: if 6 < n { c.inline_preview } else { d.inline_preview },
        candidates_per_page: if 7 < n { c.candidates_per_page } else { d.candidates_per_page },
        predictive_completions: if 8 < n { c.predictive_completions } else { d.predictive_completions },
        article_joining: if 9 < n { c.article_joining } else { d.article_joining },
        reedit_backspace: if 10 < n { c.reedit_backspace } else { d.reedit_backspace },
        commit_on_focus_loss: if 11 < n { c.commit_on_focus_loss } else { d.commit_on_focus_loss },
        latin_in_url_email: if 12 < n { c.latin_in_url_email } else { d.latin_in_url_email },
        dialect_profile: if 13 < n { c.dialect_profile } else { d.dialect_profile },
        seed_from_region: if 14 < n { c.seed_from_region } else { d.seed_from_region },
        allah_form: if 15 < n { c.allah_form } else { d.allah_form },
        adverbial_tanween: if 16 < n { c.adverbial_tanween } else { d.adverbial_tanween },
        tanween_style: if 17 < n { c.tanween_style } else { d.tanween_style },
        hamza: if 18 < n { c.hamza } else { d.hamza },
        vowel_harakat: if 19 < n { c.vowel_harakat } else { d.vowel_harakat },
        arabic_punctuation: if 20 < n { c.arabic_punctuation } else { d.arabic_punctuation },
        numerals: if 21 < n { c.numerals } else { d.numerals },
        learning_enabled: if 22 < n { c.learning_enabled } else { d.learning_enabled },
        sticky_last_choice: if 23 < n { c.sticky_last_choice } else { d.sticky_last_choice },
        use_surrounding_text: if 24 < n { c.use_surrounding_text } else { d.use_surrounding_text },
        theme: if 25 < n { c.theme } else { d.theme },
        font_family: if 26 < n { c.font_family } else { d.font_family },
        font_size: if 27 < n { c.font_size } else { d.font_size },
        footer_hints: if 28 < n { c.footer_hints } else { d.footer_hints },
        show_dialect_badge: if 29 < n { c.show_dialect_badge } else { d.show_dialect_badge },
        excluded_apps: if 30 < n { c.excluded_apps } else { d.excluded_apps },
        rtl_assist: if 31 < n { c.rtl_assist } else { d.rtl_assist },
        rtl_assist_classes: if 32 < n { c.rtl_assist_classes } else { d.rtl_assist_classes },
        key_commit_latin: if 33 < n { c.key_commit_latin } else { d.key_commit_latin },
        key_open_tashkeel: if 34 < n { c.key_open_tashkeel } else { d.key_open_tashkeel },
        key_commit_harakat: if 35 < n { c.key_commit_harakat } else { d.key_commit_harakat },
    }
}

proof fn lemma_apply_step_0(c: ConfigView, d: ConfigView)
    requires
        valid_view(c),
    ensures
        apply_key(prefix_view(c, d, 0), 0, key_value(c, 0)) == Some(prefix_view(c, d, 1)),
{
    assert(apply_key(prefix_view(c, d, 0), 0, key_value(c, 0)) =~= Some(prefix_view(c, d, 1)));
}

proof fn lemma_apply_step_1(c: ConfigView, d: ConfigView)
    requires
        valid_view(c),
    ensures
        apply_key(prefix_view(c, d, 1), 1, key_value(c, 1)) == Some(prefix_view(c, d, 2)),
{
    assert(apply_key(prefix_view(c, d, 1), 1, key_value(c, 1)) =~= Some(prefix_view(c, d, 2)));
}

proof fn lemma_apply_step_2(c: ConfigView, d: ConfigView)
    requires
        valid_view(c),
    ensures
        apply_key(prefix_view(c, d, 2), 2, key_value(c, 2)) == Some(prefix_view(c, d, 3)),
{
    assert(apply_key(prefix_view(c, d, 2), 2, key_value(c, 2)) =~= Some(prefix_view(c, d, 3)));
}

proof fn lemma_apply_step_3(c: ConfigView, d: ConfigView)
    requires
        valid_view(c),
    ensures
        apply_key(prefix_view(c, d, 3), 3, key_value(c, 3)) == Some(prefix_view(c, d, 4)),
{
    assert(apply_key(prefix_view(c, d, 3), 3, key_value(c, 3)) =~= Some(prefix_view(c, d, 4)));
}

proof fn lemma_apply_step_4(c: ConfigView, d: ConfigView)
    requires
        valid_view(c),
    ensures
        apply_key(prefix_view(c, d, 4), 4, key_value(c, 4)) == Some(prefix_view(c, d, 5)),
{
    assert(apply_key(prefix_view(c, d, 4), 4, key_value(c, 4)) =~= Some(prefix_view(c, d, 5)));
}

proof fn lemma_apply_step_5(c: ConfigView, d: ConfigView)
    requires
        valid_view(c),
    ensures
        apply_key(prefix_view(c, d, 5), 5, key_value(c, 5)) == Some(prefix_view(c, d, 6)),
{
    assert(apply_key(prefix_view(c, d, 5), 5, key_value(c, 5)) =~= Some(prefix_view(c, d, 6)));
}

proof fn lemma_apply_step_6(c: ConfigView, d: ConfigView)
    requires
        valid_view(c),
    ensures
        apply_key(prefix_view(c, d, 6), 6, key_value(c, 6)) == Some(prefix_view(c, d, 7)),
{
    assert(apply_key(prefix_view(c, d, 6), 6, key_value(c, 6)) =~= Some(prefix_view(c, d, 7)));
}

proof fn lemma_apply_step_7(c: ConfigView, d: ConfigView)
    requires
        valid_view(c),
    ensures
        apply_key(prefix_view(c, d, 7), 7, key_value(c, 7)) == Some(prefix_view(c, d, 8)),
{
    assert(apply_key(prefix_view(c, d, 7), 7, key_value(c, 7)) =~= Some(prefix_view(c, d, 8)));
}

proof fn lemma_apply_step_8(c: ConfigView, d: ConfigView)
    requires
        valid_view(c),
    ensures
        apply_key(prefix_view(c, d, 8), 8, key_value(c, 8)) == Some(prefix_view(c, d, 9)),
{
    assert(apply_key(prefix_view(c, d, 8), 8, key_value(c, 8)) =~= Some(prefix_view(c, d, 9)));
}

proof fn lemma_apply_step_9(c: ConfigView, d: ConfigView)
    requires
        valid_view(c),
    ensures
        apply_key(prefix_view(c, d, 9), 9, key_value(c, 9)) == Some(prefix_view(c, d, 10)),
{
    assert(apply_key(prefix_view(c, d, 9), 9, key_value(c, 9)) =~= Some(prefix_view(c, d, 10)));
}

proof fn lemma_apply_step_10(c: ConfigView, d: ConfigView)
    requires
        valid_view(c),
    ensures
        apply_key(prefix_view(c, d, 10), 10, key_value(c, 10)) == Some(prefix_view(c, d, 11)),
{
    assert(apply_key(prefix_view(c, d, 10), 10, key_value(c, 10)) =~= Some(prefix_view(c, d, 11)));
}

proof fn lemma_apply_step_11(c: ConfigView, d: ConfigView)
    requires
        valid_view(c),
    ensures
        apply_key(prefix_view(c, d, 11), 11, key_value(c, 11)) == Some(prefix_view(c, d, 12)),
{
    assert(apply_key(prefix_view(c, d, 11), 11, key_value(c, 11)) =~= Some(prefix_view(c, d, 12)));
}

proof fn lemma_apply_step_12(c: ConfigView, d: ConfigView)
    requires
        valid_view(c),
    ensures
        apply_key(prefix_view(c, d, 12), 12, key_value(c, 12)) == Some(prefix_view(c, d, 13)),
{
    assert(apply_key(prefix_view(c, d, 12), 12, key_value(c, 12)) =~= Some(prefix_view(c, d, 13)));
}

proof fn lemma_apply_step_13(c: ConfigView, d: ConfigView)
    requires
        valid_view(c),
    ensures
        apply_key(prefix_view(c, d, 13), 13, key_value(c, 13)) == Some(prefix_view(c, d, 14)),
{
    assert(apply_key(prefix_view(c, d, 13), 13, key_value(c, 13)) =~= Some(prefix_view(c, d, 14)));
}

proof fn lemma_apply_step_14(c: ConfigView, d: ConfigView)
    requires
        valid_view(c),
    ensures
        apply_key(prefix_view(c, d, 14), 14, key_value(c, 14)) == Some(prefix_view(c, d, 15)),
{
    assert(apply_key(prefix_view(c, d, 14), 14, key_value(c, 14)) =~= Some(prefix_view(c, d, 15)));
}

proof fn lemma_apply_step_15(c: ConfigView, d: ConfigView)
    requires
        valid_view(c),
    ensures
        apply_key(prefix_view(c, d, 15), 15, key_value(c, 15)) == Some(prefix_view(c, d, 16)),
{
    assert(apply_key(prefix_view(c, d, 15), 15, key_value(c, 15)) =~= Some(prefix_view(c, d, 16)));
}

proof fn lemma_apply_step_16(c: ConfigView, d: ConfigView)
    requires
        valid_view(c),
    ensures
        apply_key(prefix_view(c, d, 16), 16, key_value(c, 16)) == Some(prefix_view(c, d, 17)),
{
    assert(apply_key(prefix_view(c, d, 16), 16, key_value(c, 16)) =~= Some(prefix_view(c, d, 17)));
}

proof fn lemma_apply_step_17(c: ConfigView, d: ConfigView)
    requires
        valid_view(c),
    ensures
        apply_key(prefix_view(c, d, 17), 17, key_value(c, 17)) == Some(prefix_view(c, d, 18)),
{
    assert(apply_key(prefix_view(c, d, 17), 17, key_value(c, 17)) =~= Some(prefix_view(c, d, 18)));
}

proof fn lemma_apply_step_18(c: ConfigView, d: ConfigView)
    requires
        valid_view(c),
    ensures
        apply_key(prefix_view(c, d, 18), 18, key_value(c, 18)) == Some(prefix_view(c, d, 19)),
{
    assert(apply_key(prefix_view(c, d, 18), 18, key_value(c, 18)) =~= Some(prefix_view(c, d, 19)));
}

proof fn lemma_apply_step_19(c: ConfigView, d: ConfigView)
    requires
        valid_view(c),
    ensures
        apply_key(prefix_view(c, d, 19), 19, key_value(c, 19)) == Some(prefix_view(c, d, 20)),
{
    assert(apply_key(prefix_view(c, d, 19), 19, key_value(c, 19)) =~= Some(prefix_view(c, d, 20)));
}

proof fn lemma_apply_step_20(c: ConfigView, d: ConfigView)
    requires
        valid_view(c),
    ensures
        apply_key(prefix_view(c, d, 20), 20, key_value(c, 20)) == Some(prefix_view(c, d, 21)),
{
    assert(apply_key(prefix_view(c, d, 20), 20, key_value(c, 20)) =~= Some(prefix_view(c, d, 21)));
}

proof fn lemma_apply_step_21(c: ConfigView, d: ConfigView)
    requires
        valid_view(c),
    ensures
        apply_key(prefix_view(c, d, 21), 21, key_value(c, 21)) == Some(prefix_view(c, d, 22)),
{
    assert(apply_key(prefix_view(c, d, 21), 21, key_value(c, 21)) =~= Some(prefix_view(c, d, 22)));
}

proof fn lemma_apply_step_22(c: ConfigView, d: ConfigView)
    requires
        valid_view(c),
    ensures
        apply_key(prefix_view(c, d, 22), 22, key_value(c, 22)) == Some(prefix_view(c, d, 23)),
{
    assert(apply_key(prefix_view(c, d, 22), 22, key_value(c, 22)) =~= Some(prefix_view(c, d, 23)));
}

proof fn lemma_apply_step_23(c: ConfigView, d: ConfigView)
    requires
        valid_view(c),
    ensures
        apply_key(prefix_view(c, d, 23), 23, key_value(c, 23)) == Some(prefix_view(c, d, 24)),
{
    assert(apply_key(prefix_view(c, d, 23), 23, key_value(c, 23)) =~= Some(prefix_view(c, d, 24)));
}

proof fn lemma_apply_step_24(c: ConfigView, d: ConfigView)
    requires
        valid_view(c),
    ensures
        apply_key(prefix_view(c, d, 24), 24, key_value(c, 24)) == Some(prefix_view(c, d, 25)),
{
    assert(apply_key(prefix_view(c, d, 24), 24, key_value(c, 24)) =~= Some(prefix_view(c, d, 25)));
}

proof fn lemma_apply_step_25(c: ConfigView, d: ConfigView)
    requires
        valid_view(c),
    ensures
        apply_key(prefix_view(c, d, 25), 25, key_value(c, 25)) == Some(prefix_view(c, d, 26)),
{
    assert(apply_key(prefix_view(c, d, 25), 25, key_value(c, 25)) =~= Some(prefix_view(c, d, 26)));
}

proof fn lemma_apply_step_26(c: ConfigView, d: ConfigView)
    requires
        valid_view(c),
    ensures
        apply_key(prefix_view(c, d, 26), 26, key_value(c, 26)) == Some(prefix_view(c, d, 27)),
{
    assert(apply_key(prefix_view(c, d, 26), 26, key_value(c, 26)) =~= Some(prefix_view(c, d, 27)));
}

proof fn lemma_apply_step_27(c: ConfigView, d: ConfigView)
    requires
        valid_view(c),
    ensures
        apply_key(prefix_view(c, d, 27), 27, key_value(c, 27)) == Some(prefix_view(c, d, 28)),
{
    assert(apply_key(prefix_view(c, d, 27), 27, key_value(c, 27)) =~= Some(prefix_view(c, d, 28)));
}

proof fn lemma_apply_step_28(c: ConfigView, d: ConfigView)
    requires
        valid_view(c),
    ensures
        apply_key(prefix_view(c, d, 28), 28, key_value(c, 28)) == Some(prefix_view(c, d, 29)),
{
    assert(apply_key(prefix_view(c, d, 28), 28, key_value(c, 28)) =~= Some(prefix_view(c, d, 29)));
}

proof fn lemma_apply_step_29(c: ConfigView, d: ConfigView)
    requires
        valid_view(c),
    ensures
        apply_key(prefix_view(c, d, 29), 29, key_value(c, 29)) == Some(prefix_view(c, d, 30)),
{
    assert(apply_key(prefix_view(c, d, 29), 29, key_value(c, 29)) =~= Some(prefix_view(c, d, 30)));
}

proof fn lemma_apply_step_30(c: ConfigView, d: ConfigView)
    requires
        valid_view(c),
    ensures
        apply_key(prefix_view(c, d, 30), 30, key_value(c, 30)) == Some(prefix_view(c, d, 31)),
{
    assert(apply_key(prefix_view(c, d, 30), 30, key_value(c, 30)) =~= Some(prefix_view(c, d, 31)));
}

proof fn lemma_apply_step_31(c: ConfigView, d: ConfigView)
    requires
        valid_view(c),
    ensures
        apply_key(prefix_view(c, d, 31), 31, key_value(c, 31)) == Some(prefix_view(c, d, 32)),
{
    assert(apply_key(prefix_view(c, d, 31), 31, key_value(c, 31)) =~= Some(prefix_view(c, d, 32)));
}

proof fn lemma_apply_step_32(c: ConfigView, d: ConfigView)
    requires
        valid_view(c),
    ensures
        apply_key(prefix_view(c, d, 32), 32, key_value(c, 32)) == Some(prefix_view(c, d, 33)),
{
    assert(apply_key(prefix_view(c, d, 32), 32, key_value(c, 32)) =~= Some(prefix_view(c, d, 33)));
}

proof fn lemma_apply_step_33(c: ConfigView, d: ConfigView)
    requires
        valid_view(c),
    ensures
        apply_key(prefix_view(c, d, 33), 33, key_value(c, 33)) == Some(prefix_view(c, d, 34)),
{
    assert(apply_key(prefix_view(c, d, 33), 33, key_value(c, 33)) =~= Some(prefix_view(c, d, 34)));
}

proof fn lemma_apply_step_34(c: ConfigView, d: ConfigView)
    requires
        valid_view(c),
    ensures
        apply_key(prefix_view(c, d, 34), 34, key_value(c, 34)) == Some(prefix_view(c, d, 35)),
{
    assert(apply_key(prefix_view(c, d, 34), 34, key_value(c, 34)) =~= Some(prefix_view(c, d, 35)));
}

proof fn lemma_apply_step_35(c: ConfigView, d: ConfigView)
    requires
        valid_view(c),
    ensures
        apply_key(prefix_view(c, d, 35), 35, key_value(c, 35)) == Some(prefix_view(c, d, 36)),
{
    assert(apply_key(prefix_view(c, d, 35), 35, key_value(c, 35)) =~= Some(prefix_view(c, d, 36)));
}
proof fn lemma_apply_step(c: ConfigView, d: ConfigView, i: int)
    requires
        valid_view(c),
        0 <= i < 36,
    ensures
        apply_key(prefix_view(c, d, i), i, key_value(c, i)) == Some(prefix_view(c, d, i + 1)),
{
    if i == 0 {
        lemma_apply_step_0(c, d);
    } else if i == 1 {
        lemma_apply_step_1(c, d);
    } else if i == 2 {
        lemma_apply_step_2(c, d);
    } else if i == 3 {
        lemma_apply_step_3(c, d);
    } else if i == 4 {
        lemma_apply_step_4(c, d);
    } else if i == 5 {
        lemma_apply_step_5(c, d);
    } else if i == 6 {
        lemma_apply_step_6(c, d);
    } else if i == 7 {
        lemma_apply_step_7(c, d);
    } else if i == 8 {
        lemma_apply_step_8(c, d);
    } else if i == 9 {
        lemma_apply_step_9(c, d);
    } else if i == 10 {
        lemma_apply_step_10(c, d);
    } else if i == 11 {
        lemma_apply_step_11(c, d);
    } else if i == 12 {
        lemma_apply_step_12(c, d);
    } else if i == 13 {
        lemma_apply_step_13(c, d);
    } else if i == 14 {
        lemma_apply_step_14(c, d);
    } else if i == 15 {
        lemma_apply_step_15(c, d);
    } else if i == 16 {
        lemma_apply_step_16(c, d);
    } else if i == 17 {
        lemma_apply_step_17(c, d);
    } else if i == 18 {
        lemma_apply_step_18(c, d);
    } else if i == 19 {
        lemma_apply_step_19(c, d);
    } else if i == 20 {
        lemma_apply_step_20(c, d);
    } else if i == 21 {
        lemma_apply_step_21(c, d);
    } else if i == 22 {
        lemma_apply_step_22(c, d);
    } else if i == 23 {
        lemma_apply_step_23(c, d);
    } else if i == 24 {
        lemma_apply_step_24(c, d);
    } else if i == 25 {
        lemma_apply_step_25(c, d);
    } else if i == 26 {
        lemma_apply_step_26(c, d);
    } else if i == 27 {
        lemma_apply_step_27(c, d);
    } else if i == 28 {
        lemma_apply_step_28(c, d);
    } else if i == 29 {
        lemma_apply_step_29(c, d);
    } else if i == 30 {
        lemma_apply_step_30(c, d);
    } else if i == 31 {
        lemma_apply_step_31(c, d);
    } else if i == 32 {
        lemma_apply_step_32(c, d);
    } else if i == 33 {
        lemma_apply_step_33(c, d);
    } else if i == 34 {
        lemma_apply_step_34(c, d);
    } else if i == 35 {
        lemma_apply_step_35(c, d);
    }
}

proof fn lemma_pairs_upto(c: ConfigView, d: ConfigView, w: Seq<Seq<char>>, n: int)
    requires
        valid_view(c),
        0 <= n <= 36,
    ensures
        config_upto(d, w, toml_pairs(c), n) == (prefix_view(c, d, n), w),
    decreases n,
{
    if n == 0 {
        assert(prefix_view(c, d, 0) =~= d);
    } else {
        lemma_pairs_upto(c, d, w, n - 1);
        lemma_find_key_from(n - 1, 0);
        lemma_apply_step(c, d, n - 1);
        assert(toml_pairs(c)[n - 1] == (spec_key_name(n - 1), key_value(c, n - 1)));
    }
}

/// Applying the pairs a valid configuration is written as, over any configuration, gives that
/// configuration back, with no warning added.
pub proof fn law_pairs_restore_config(c: ConfigView, d: ConfigView, w: Seq<Seq<char>>)
    requires
        valid_view(c),
    ensures
        config_upto(d, w, toml_pairs(c), 36) == (c, w),
{
    lemma_pairs_upto(c, d, w, 36);
    assert(prefix_view(c, d, 36) =~= c);
}

// ---------------------------------------------------------------------------------------------
// Reading back the text.

proof fn lemma_split_lines(ls: Seq<Seq<char>>)
    requires
        forall|i: int| 0 <= i < ls.len() ==> free_of(#[trigger] ls[i], '\n'),
    ensures
        split_on(join_lines(ls), '\n') == ls.push(Seq::empty()),
    decreases ls.len(),
{
    if ls.len() == 0 {
        assert(split_on(Seq::<char>::empty(), '\n') =~= seq![Seq::<char>::empty()]);
    } else {
        let prev = ls.drop_last();
        assert forall|i: int| 0 <= i < prev.len() implies free_of(#[trigger] prev[i], '\n') by {
            assert(prev[i] == ls[i]);
        }
        lemma_split_lines(prev);
        let a = join_lines(prev);
        let l = ls.last();
        assert(free_of(ls[ls.len() - 1], '\n'));
        lemma_split_plain(a, l, '\n');
        let al = a + l;
        assert(join_lines(ls) == al.push('\n'));
        assert(al.push('\n').drop_last() =~= al);
        assert(split_on(join_lines(ls), '\n') =~= ls.push(Seq::empty()));
    }
}

/// The lines of text written line by line are those lines.
proof fn lemma_text_lines(ls: Seq<Seq<char>>)
    requires
        forall|i: int| 0 <= i < ls.len() ==> free_of(#[trigger] ls[i], '\n'),
        forall|i: int| 0 <= i < ls.len() ==> (#[trigger] ls[i]).len() == 0 || ls[i].last() != '\r',
    ensures
        text_lines(join_lines(ls)) == ls,
{
    lemma_split_lines(ls);
    let ps = split_on(join_lines(ls), '\n');
    assert forall|i: int| 0 <= i < ls.len() implies text_lines(join_lines(ls))[i] == ls[i] by {
        assert(ps[i] == ls[i]);
        assert(drop_cr(ls[i]) == ls[i]);
    }
    assert(text_lines(join_lines(ls)) =~= ls);
}

/// Scanning `s` from `i` with the quote state `st` meets no comment; the quote state at the end.
pub open spec fn scan_quotes(s: Seq<char>, i: int, st: bool) -> Option<bool>
    decreases s.len() - i,
{
    if i >= s.len() {
        Some(st)
    } else if s[i] == '"' {
        scan_quotes(s, i + 1, !st)
    } else if s[i] == '#' && !st {
        None
    } else {
        scan_quotes(s, i + 1, st)
    }
}

proof fn lemma_scan_cut(s: Seq<char>, i: int, st: bool)
    requires
        0 <= i <= s.len(),
        scan_quotes(s, i, st) is Some,
    ensures
        comment_cut(s, i, st) == s.len(),
    decreases s.len() - i,
{
    if i < s.len() {
        if s[i] == '"' {
            lemma_scan_cut(s, i + 1, !st);
        } else {
            lemma_scan_cut(s, i + 1, st);
        }
    }
}

proof fn lemma_scan_concat(a: Seq<char>, b: Seq<char>, i: int, st: bool)
    requires
        0 <= i <= a.len(),
    ensures
        scan_quotes(a + b, i, st) == match scan_quotes(a, i, st) {
            None => None,
            Some(st2) => scan_quotes(b, 0, st2),
        },
    decreases a.len() - i,
{
    if i == a.len() {
        lemma_scan_shift(a, b, 0, st);
    } else {
        assert((a + b)[i] == a[i]);
        if a[i] == '"' {
            lemma_scan_concat(a, b, i + 1, !st);
        } else if a[i] == '#' && !st {
        } else {
            lemma_scan_concat(a, b, i + 1, st);
        }
    }
}

proof fn lemma_scan_shift(a: Seq<char>, b: Seq<char>, j: int, st: bool)
    requires
        0 <= j <= b.len(),
    ensures
        scan_quotes(a + b, a.len() + j, st) == scan_quotes(b, j, st),
    decreases b.len() - j,
{
    if j < b.len() {
        assert((a + b)[a.len() + j] == b[j]);
        if b[j] == '"' {
            lemma_scan_shift(a, b, j + 1, !st);
        } else {
            lemma_scan_shift(a, b, j + 1, st);
        }
    }
}

/// Text with neither `#` nor `"` leaves the quote state as it is.
proof fn lemma_scan_plain(s: Seq<char>, i: int, st: bool)
    requires
        0 <= i <= s.len(),
        free_of(s, '#'),
        free_of(s, '"'),
    ensures
        scan_quotes(s, i, st) == Some(st),
    decreases s.len() - i,
{
    if i < s.len() {
        lemma_scan_plain(s, i + 1, st);
    }
}

/// Inside quotes, text without `"` stays inside.
proof fn lemma_scan_inside(s: Seq<char>, i: int)
    requires
        0 <= i <= s.len(),
        free_of(s, '"'),
    ensures
        scan_quotes(s, i, true) == Some(true),
    decreases s.len() - i,
{
    if i < s.len() {
        lemma_scan_inside(s, i + 1);
    }
}

proof fn lemma_no_quotes_id(s: Seq<char>)
    requires
        free_of(s, '"'),
    ensures
        no_quotes(s) == s,
    decreases s.len(),
{
    if s.len() > 0 {
        assert(free_of(s.drop_last(), '"'));
        lemma_no_quotes_id(s.drop_last());
        assert(s.drop_last().push(s.last()) =~= s);
    }
}

proof fn lemma_scan_quoted(s: Seq<char>)
    requires
        free_of(s, '"'),
    ensures
        scan_quotes(quoted(s), 0, false) == Some(false),
        quoted(s) == seq!['"'] + s + seq!['"'],
{
    lemma_no_quotes_id(s);
    let q = quoted(s);
    let dq = seq!['"'];
    assert(scan_quotes(dq, 1, true) == Some(true));
    assert(scan_quotes(dq, 0, false) == Some(true));
    assert(scan_quotes(dq, 1, false) == Some(false));
    assert(scan_quotes(dq, 0, true) == Some(false));
    lemma_scan_concat(seq!['"'] + s, seq!['"'], 0, false);
    lemma_scan_concat(seq!['"'], s, 0, false);
    lemma_scan_inside(s, 0);
}

proof fn lemma_scan_join(items: Seq<Seq<char>>)
    requires
        forall|i: int| 0 <= i < items.len() ==> free_of(#[trigger] items[i], '"'),
    ensures
        scan_quotes(join_quoted(items), 0, false) == Some(false),
    decreases items.len(),
{
    if items.len() == 1 {
        assert(free_of(items[0], '"'));
        lemma_scan_quoted(items[0]);
    } else if items.len() > 1 {
        let prev = items.drop_last();
        assert forall|i: int| 0 <= i < prev.len() implies free_of(#[trigger] prev[i], '"') by {
            assert(prev[i] == items[i]);
        }
        lemma_scan_join(prev);
        assert(free_of(items[items.len() - 1], '"'));
        lemma_scan_quoted(items.last());
        let sep = ", "@;
        assert(free_of(sep, '#') && free_of(sep, '"')) by {
            reveal_strlit(", ");
        }
        lemma_scan_plain(sep, 0, false);
        lemma_scan_concat(join_quoted(prev) + sep, quoted(items.last()), 0, false);
        lemma_scan_concat(join_quoted(prev), sep, 0, false);
    }
}

// ---------------------------------------------------------------------------------------------
// Finding a character.

proof fn lemma_find_char_at(s: Seq<char>, c: char, i: int, j: int)
    requires
        0 <= i <= j < s.len(),
        forall|k: int| i <= k < j ==> #[trigger] s[k] != c,
        s[j] == c,
    ensures
        find_char(s, c, i) == Some(j),
    decreases j - i,
{
    if i < j {
        lemma_find_char_at(s, c, i + 1, j);
    }
}

// ---------------------------------------------------------------------------------------------
// Values.

/// The decimal digits of `n` read back as `n`.
proof fn lemma_decimal(n: nat)
    ensures
        decimal(n).len() > 0,
        all_digits(decimal(n)),
        digits_value(decimal(n)) == n,
    decreases n,
{
    assert(digit_char((n % 10) as int) as int == 48 + n % 10);
    if n < 10 {
        assert(decimal(n).drop_last() =~= Seq::<char>::empty());
        assert(decimal(n).last() == digit_char(n as int));
        assert(digits_value(decimal(n).drop_last()) == 0);
    } else {
        lemma_decimal(n / 10);
        let d = decimal(n / 10);
        assert(decimal(n).drop_last() =~= d);
        assert(10 * (n / 10) + n % 10 == n);
        assert(decimal(n).last() == digit_char((n % 10) as int));
        assert(digits_value(decimal(n).drop_last()) == n / 10);
        assert(all_digits(decimal(n))) by {
            assert forall|i: int| 0 <= i < decimal(n).len() implies is_digit(#[trigger] decimal(n)[i]) by {
                if i < d.len() {
                    assert(decimal(n)[i] == d[i]);
                }
            }
        }
    }
}

/// What a value's text is: no line break and no comment, white space at neither end.
pub open spec fn value_text(v: Seq<char>) -> bool {
    &&& v.len() > 0
    &&& !is_ws(v[0])
    &&& !is_ws(v.last())
    &&& free_of(v, '\n')
    &&& scan_quotes(v, 0, false) is Some
}

proof fn lemma_int_value(n: i64)
    ensures
        value_text(int_text(n as int)),
        spec_parse_value(int_text(n as int)) == Some(VView::Int(n)),
{
    let v = int_text(n as int);
    let m: nat = if n < 0 { (-n) as nat } else { n as nat };
    lemma_decimal(m);
    let d = decimal(m);
    if n < 0 {
        assert(v.skip(1) =~= d);
        assert forall|i: int| 0 <= i < v.len() implies v[i] == '-' || is_digit(#[trigger] v[i]) by {
            if i > 0 {
                assert(v[i] == d[i - 1]);
            }
        }
    } else {
        assert forall|i: int| 0 <= i < v.len() implies v[i] == '-' || is_digit(#[trigger] v[i]) by {
            assert(is_digit(d[i]));
        }
    }
    assert(is_digit(v.last()));
    lemma_scan_plain(v, 0, false);
    lemma_trim_same(v);
    assert(v != "true"@ && v != "false"@) by {
        reveal_strlit("true");
        reveal_strlit("false");
    }
    assert(unsigned_part(v) =~= d);
}

proof fn lemma_bool_value(b: bool)
    ensures
        value_text(bool_text(b)),
        spec_parse_value(bool_text(b)) == Some(VView::Bool(b)),
{
    reveal_strlit("true");
    reveal_strlit("false");
    let v = bool_text(b);
    lemma_scan_plain(v, 0, false);
    lemma_trim_same(v);
}

/// A text that can be written between quotes and read back.
pub open spec fn plain_text(s: Seq<char>) -> bool {
    free_of(s, '"') && free_of(s, '\n')
}

proof fn lemma_quoted_str(s: Seq<char>)
    requires
        plain_text(s),
    ensures
        value_text(quoted(s)),
        spec_parse_str(quoted(s)) == Some(s),
        spec_parse_str(seq![' '] + quoted(s)) == Some(s),
{
    lemma_scan_quoted(s);
    let q = quoted(s);
    assert(q[0] == '"' && q.last() == '"');
    assert(free_of(q, '\n')) by {
        assert forall|i: int| 0 <= i < q.len() implies q[i] != '\n' by {
            if 0 < i < q.len() - 1 {
                assert(q[i] == s[i - 1]);
            }
        }
    }
    lemma_trim_same(q);
    assert(q.subrange(1, q.len() - 1) =~= s);
    let sq = seq![' '] + q;
    lemma_trim_between(sq, 1, sq.len() as int);
    assert(sq.subrange(1, sq.len() as int) =~= q);
}

proof fn lemma_str_value(s: Seq<char>)
    requires
        plain_text(s),
    ensures
        value_text(quoted(s)),
        spec_parse_value(quoted(s)) == Some(VView::Str(s)),
{
    lemma_quoted_str(s);
}

/// A text that can be written as a list item and read back.
pub open spec fn plain_item(s: Seq<char>) -> bool {
    plain_text(s) && free_of(s, ',')
}

pub open spec fn plain_items(items: Seq<Seq<char>>) -> bool {
    forall|i: int| 0 <= i < items.len() ==> plain_item(#[trigger] items[i])
}

/// The pieces a written list splits into at its commas.
pub open spec fn list_parts(items: Seq<Seq<char>>) -> Seq<Seq<char>> {
    Seq::new(
        items.len(),
        |i: int|
            if i == 0 {
                quoted(items[0])
            } else {
                seq![' '] + quoted(items[i])
            },
    )
}

proof fn lemma_join_shape(items: Seq<Seq<char>>)
    requires
        items.len() > 0,
        plain_items(items),
    ensures
        join_quoted(items).len() > 0,
        join_quoted(items)[0] == '"',
        join_quoted(items).last() == '"',
        free_of(join_quoted(items), '\n'),
        split_on(join_quoted(items), ',') == list_parts(items),
    decreases items.len(),
{
    let q = quoted(items.last());
    assert(plain_item(items[items.len() - 1]));
    lemma_quoted_str(items.last());
    lemma_no_quotes_id(items.last());
    assert(free_of(q, ',')) by {
        assert forall|i: int| 0 <= i < q.len() implies q[i] != ',' by {
            if 0 < i < q.len() - 1 {
                assert(q[i] == items.last()[i - 1]);
            }
        }
    }
    if items.len() == 1 {
        lemma_split_plain(Seq::empty(), q, ',');
        assert(Seq::<char>::empty() + q =~= q);
        assert(split_on(q, ',') =~= list_parts(items));
    } else {
        let prev = items.drop_last();
        assert forall|i: int| 0 <= i < prev.len() implies plain_item(#[trigger] prev[i]) by {
            assert(prev[i] == items[i]);
        }
        lemma_join_shape(prev);
        let j = join_quoted(prev);
        let a = j.push(',');
        let b = seq![' '] + q;
        assert(join_quoted(items) =~= a + b) by {
            reveal_strlit(", ");
        }
        assert(free_of(b, ',')) by {
            assert forall|i: int| 0 <= i < b.len() implies b[i] != ',' by {
                if i > 0 {
                    assert(b[i] == q[i - 1]);
                }
            }
        }
        assert(a.drop_last() =~= j);
        assert(split_on(a, ',') == split_on(j, ',').push(Seq::empty()));
        lemma_split_plain(a, b, ',');
        assert(Seq::<char>::empty() + b =~= b);
        assert(split_on(a + b, ',') =~= list_parts(items));
        let all = a + b;
        assert forall|i: int| 0 <= i < all.len() implies all[i] != '\n' by {
            if i < j.len() {
                assert(all[i] == j[i]);
            } else if i > j.len() + 1 {
                assert(all[i] == q[i - j.len() - 2]);
            }
        }
    }
}

proof fn lemma_strs_parts(items: Seq<Seq<char>>, k: int)
    requires
        0 <= k <= items.len(),
        plain_items(items),
    ensures
        strs_of(list_parts(items), k) == Some(items.take(k)),
    decreases k,
{
    if k == 0 {
        assert(items.take(0) =~= Seq::<Seq<char>>::empty());
    } else {
        lemma_strs_parts(items, k - 1);
        assert(plain_item(items[k - 1]));
        lemma_quoted_str(items[k - 1]);
        assert(items.take(k) =~= items.take(k - 1).push(items[k - 1]));
    }
}

proof fn lemma_list_value(items: Seq<Seq<char>>)
    requires
        plain_items(items),
    ensures
        value_text(list_text(items)),
        spec_parse_value(list_text(items)) == Some(VView::List(items)),
{
    let v = list_text(items);
    let j = join_quoted(items);
    assert(v.subrange(1, v.len() - 1) =~= j);
    assert(v[0] == '[' && v.last() == ']');
    lemma_trim_same(v);
    assert(v != "true"@ && v != "false"@) by {
        reveal_strlit("true");
        reveal_strlit("false");
    }
    assert(unsigned_part(v) == v);
    assert(!is_digit(v[0]));
    let br = seq!['['];
    lemma_scan_plain(br, 0, false);
    lemma_scan_plain(seq![']'], 0, false);
    if items.len() == 0 {
        assert(v =~= seq!['[', ']']);
        assert(spec_trim(j) =~= Seq::<char>::empty());
        assert(items =~= Seq::<Seq<char>>::empty());
        lemma_scan_plain(v, 0, false);
    } else {
        lemma_join_shape(items);
        lemma_trim_same(j);
        lemma_strs_parts(items, items.len() as int);
        assert(items.take(items.len() as int) =~= items);
        assert forall|i: int| 0 <= i < items.len() implies free_of(#[trigger] items[i], '"') by {
            assert(plain_item(items[i]));
        }
        lemma_scan_join(items);
        lemma_scan_concat(br + j, seq![']'], 0, false);
        lemma_scan_concat(br, j, 0, false);
        assert forall|i: int| 0 <= i < v.len() implies v[i] != '\n' by {
            if 0 < i < v.len() - 1 {
                assert(v[i] == j[i - 1]);
            }
        }
    }
}

// ---------------------------------------------------------------------------------------------
// Lines.

/// A key or section name: lower-case letters and underscores.
pub open spec fn name_chars(s: Seq<char>) -> bool {
    s.len() > 0 && forall|i: int| 0 <= i < s.len() ==> ('a' <= #[trigger] s[i] <= 'z') || s[i] == '_'
}

/// A line that the line splitter gives back as it is.
pub open spec fn line_ok(l: Seq<char>) -> bool {
    free_of(l, '\n') && (l.len() == 0 || l.last() != '\r')
}

proof fn lemma_pair_kind(indented: bool, key: Seq<char>, vt: Seq<char>)
    requires
        name_chars(key),
        value_text(vt),
    ensures
        line_kind(pair_line(indented, key, vt)) == LineKind::Pair(key + " "@, " "@ + vt),
        spec_trim(key + " "@) == key,
        spec_trim(" "@ + vt) == vt,
        line_ok(pair_line(indented, key, vt)),
{
    reveal_strlit("             ");
    reveal_strlit(" = ");
    reveal_strlit(" ");
    let ind = indent_text(indented);
    let head = ind + key + " = "@;
    let line = pair_line(indented, key, vt);
    assert(line =~= head + vt);
    assert(free_of(head, '#') && free_of(head, '"') && free_of(head, '\n')) by {
        assert forall|i: int| 0 <= i < head.len() implies head[i] != '#' && head[i] != '"'
            && head[i] != '\n' by {
            if ind.len() <= i < ind.len() + key.len() {
                assert(head[i] == key[i - ind.len()]);
            }
        }
    }
    lemma_scan_plain(head, 0, false);
    lemma_scan_concat(head, vt, 0, false);
    lemma_scan_cut(line, 0, false);
    assert(strip_comment(line) =~= line);
    assert(key[0] == line[ind.len() as int]);
    lemma_trim_between(line, ind.len() as int, line.len() as int);
    let body = key + " = "@ + vt;
    assert(line.subrange(ind.len() as int, line.len() as int) =~= body);
    lemma_find_char_at(body, '=', 0, key.len() + 1int);
    assert(body.take(key.len() + 1int) =~= key + " "@);
    assert(body.skip(key.len() + 2int) =~= " "@ + vt);
    lemma_trim_between(key + " "@, 0, key.len() as int);
    assert((key + " "@).subrange(0, key.len() as int) =~= key);
    lemma_trim_between(" "@ + vt, 1, vt.len() + 1int);
    assert((" "@ + vt).subrange(1, vt.len() + 1int) =~= vt);
    assert forall|i: int| 0 <= i < line.len() implies line[i] != '\n' by {
        if i >= head.len() {
            assert(line[i] == vt[i - head.len()]);
        }
    }
}

proof fn lemma_section_kind(name: Seq<char>)
    requires
        name_chars(name),
    ensures
        line_kind(section_line(name)) == LineKind::Section(name),
        line_ok(section_line(name)),
{
    reveal_strlit("             [");
    reveal_strlit("]");
    let line = section_line(name);
    let head = "             ["@;
    assert(free_of(line, '#') && free_of(line, '"') && free_of(line, '\n')) by {
        assert forall|i: int| 0 <= i < line.len() implies line[i] != '#' && line[i] != '"'
            && line[i] != '\n' by {
            if head.len() <= i < head.len() + name.len() {
                assert(line[i] == name[i - head.len()]);
            }
        }
    }
    lemma_scan_plain(line, 0, false);
    lemma_scan_cut(line, 0, false);
    assert(strip_comment(line) =~= line);
    lemma_trim_between(line, 13, line.len() as int);
    let body = line.subrange(13, line.len() as int);
    assert(body.subrange(1, body.len() - 1) =~= name);
    lemma_trim_same(name);
}

proof fn lemma_header_kind()
    ensures
        line_kind(header_line()) == LineKind::Blank,
        line_ok(header_line()),
{
    reveal_strlit("# Type3arabi settings. Written by Type3arabi Settings.");
    assert(strip_comment(header_line()) =~= Seq::<char>::empty());
}

/// The reader's state once the lines before the one of key `j` are read, in section `sec`.
pub open spec fn read_state(c: ConfigView, sec: Seq<char>, j: int) -> TomlState {
    TomlState { section: sec, pairs: toml_pairs(c).take(j), warnings: Seq::empty() }
}

/// The first `k` lines of `ls` are read as `read_state(c, sec, j)`, and split as written.
pub open spec fn read_upto(c: ConfigView, ls: Seq<Seq<char>>, k: int, sec: Seq<char>, j: int) -> bool {
    &&& toml_upto(ls, k) == read_state(c, sec, j)
    &&& forall|i: int| 0 <= i < k ==> line_ok(#[trigger] ls[i])
}

proof fn lemma_pair_step(
    c: ConfigView,
    ls: Seq<Seq<char>>,
    k: int,
    j: int,
    sec: Seq<char>,
    indented: bool,
    key: Seq<char>,
    vt: Seq<char>,
)
    requires
        0 <= k < ls.len(),
        0 <= j < 36,
        read_upto(c, ls, k, sec, j),
        ls[k] == pair_line(indented, key, vt),
        name_chars(key),
        value_text(vt),
        spec_key_name(j) == (if sec.len() == 0 { key } else { sec + "."@ + key }),
        spec_parse_value(vt) == Some(key_value(c, j)),
    ensures
        read_upto(c, ls, k + 1, sec, j + 1),
{
    lemma_pair_kind(indented, key, vt);
    assert(toml_pairs(c).take(j + 1) =~= toml_pairs(c).take(j).push(
        (spec_key_name(j), key_value(c, j)),
    ));
}

proof fn lemma_section_step(c: ConfigView, ls: Seq<Seq<char>>, k: int, j: int, sec: Seq<char>, name: Seq<char>)
    requires
        0 <= k < ls.len(),
        read_upto(c, ls, k, sec, j),
        ls[k] == section_line(name),
        name_chars(name),
    ensures
        read_upto(c, ls, k + 1, name, j),
{
    lemma_section_kind(name);
}

proof fn lemma_blank_step(c: ConfigView, ls: Seq<Seq<char>>, k: int, j: int, sec: Seq<char>)
    requires
        0 <= k < ls.len(),
        read_upto(c, ls, k, sec, j),
        ls[k] == header_line() || ls[k] == Seq::<char>::empty(),
    ensures
        read_upto(c, ls, k + 1, sec, j),
{
    lemma_header_kind();
    assert(strip_comment(Seq::<char>::empty()) =~= Seq::<char>::empty());
}

/// Every text of `c` can be written and read back: no double quote and no line break, and in
/// the lists no comma either.
pub open spec fn writable_view(c: ConfigView) -> bool {
    &&& plain_text(c.mode_toggle)
    &&& plain_text(c.mode_scope)
    &&& plain_text(c.global_hotkey)
    &&& plain_text(c.latin_layout)
    &&& plain_text(c.inline_preview)
    &&& plain_text(c.commit_on_focus_loss)
    &&& plain_text(c.dialect_profile)
    &&& plain_text(c.allah_form)
    &&& plain_text(c.tanween_style)
    &&& plain_text(c.hamza)
    &&& plain_text(c.vowel_harakat)
    &&& plain_text(c.numerals)
    &&& plain_text(c.theme)
    &&& plain_text(c.font_family)
    &&& plain_text(c.footer_hints)
    &&& plain_items(c.excluded_apps)
    &&& plain_items(c.rtl_assist_classes)
    &&& plain_text(c.key_commit_latin)
    &&& plain_text(c.key_open_tashkeel)
    &&& plain_text(c.key_commit_harakat)
}

#[verifier::spinoff_prover]
proof fn lemma_read_top(c: ConfigView)
    requires
        writable_view(c),
        read_upto(c, toml_lines(c), 0, Seq::<char>::empty(), 0),
    ensures
        read_upto(c, toml_lines(c), 2, Seq::<char>::empty(), 1),
{
    let ls = toml_lines(c);
    lemma_blank_step(c, ls, 0, 0, Seq::<char>::empty());
    assert(name_chars("schema"@)) by {
        reveal_strlit("schema");
    }
    lemma_int_value(c.schema);
    lemma_pair_step(c, ls, 1, 0, Seq::<char>::empty(), true, "schema"@, int_text(c.schema as int));
}

#[verifier::spinoff_prover]
proof fn lemma_read_general(c: ConfigView)
    requires
        writable_view(c),
        read_upto(c, toml_lines(c), 2, Seq::<char>::empty(), 1),
    ensures
        read_upto(c, toml_lines(c), 7, "general"@, 4),
{
    let ls = toml_lines(c);
    lemma_blank_step(c, ls, 2, 1, Seq::<char>::empty());
    assert(name_chars("general"@)) by {
        reveal_strlit("general");
    }
    lemma_section_step(c, ls, 3, 1, Seq::<char>::empty(), "general"@);
    assert(name_chars("mode_toggle"@) && "general"@.len() > 0
        && spec_key_name(1) == "general"@ + "."@ + "mode_toggle"@) by {
        reveal_strlit("mode_toggle");
        reveal_strlit("general");
        reveal_strlit(".");
        reveal_strlit("general.mode_toggle");
        assert("general.mode_toggle"@ =~= "general"@ + "."@ + "mode_toggle"@);
    }
    lemma_str_value(c.mode_toggle);
    lemma_pair_step(c, ls, 4, 1, "general"@, false, "mode_toggle"@, quoted(c.mode_toggle));
    assert(name_chars("mode_scope"@) && "general"@.len() > 0
        && spec_key_name(2) == "general"@ + "."@ + "mode_scope"@) by {
        reveal_strlit("mode_scope");
        reveal_strlit("general");
        reveal_strlit(".");
        reveal_strlit("general.mode_scope");
        assert("general.mode_scope"@ =~= "general"@ + "."@ + "mode_scope"@);
    }
    lemma_str_value(c.mode_scope);
    lemma_pair_step(c, ls, 5, 2, "general"@, false, "mode_scope"@, quoted(c.mode_scope));
    assert(name_chars("global_hotkey_enabled"@) && "general"@.len() > 0
        && spec_key_name(3) == "general"@ + "."@ + "global_hotkey_enabled"@) by {
        reveal_strlit("global_hotkey_enabled");
        reveal_strlit("general");
        reveal_strlit(".");
        reveal_strlit("general.global_hotkey_enabled");
        assert("general.global_hotkey_enabled"@ =~= "general"@ + "."@ + "global_hotkey_enabled"@);
    }
    lemma_bool_value(c.global_hotkey_enabled);
    lemma_pair_step(c, ls, 6, 3, "general"@, false, "global_hotkey_enabled"@, bool_text(c.global_hotkey_enabled));
}

#[verifier::spinoff_prover]
proof fn lemma_read_general_rest(c: ConfigView)
    requires
        writable_view(c),
        read_upto(c, toml_lines(c), 7, "general"@, 4),
    ensures
        read_upto(c, toml_lines(c), 8, "general"@, 5),
{
    let ls = toml_lines(c);
    assert(name_chars("global_hotkey"@) && "general"@.len() > 0
        && spec_key_name(4) == "general"@ + "."@ + "global_hotkey"@) by {
        reveal_strlit("global_hotkey");
        reveal_strlit("general");
        reveal_strlit(".");
        reveal_strlit("general.global_hotkey");
        assert("general.global_hotkey"@ =~= "general"@ + "."@ + "global_hotkey"@);
    }
    lemma_str_value(c.global_hotkey);
    lemma_pair_step(c, ls, 7, 4, "general"@, false, "global_hotkey"@, quoted(c.global_hotkey));
}

#[verifier::spinoff_prover]
proof fn lemma_read_typing(c: ConfigView)
    requires
        writable_view(c),
        read_upto(c, toml_lines(c), 8, "general"@, 5),
    ensures
        read_upto(c, toml_lines(c), 13, "typing"@, 8),
{
    let ls = toml_lines(c);
    lemma_blank_step(c, ls, 8, 5, "general"@);
    assert(name_chars("typing"@)) by {
        reveal_strlit("typing");
    }
    lemma_section_step(c, ls, 9, 5, "general"@, "typing"@);
    assert(name_chars("latin_layout"@) && "typing"@.len() > 0
        && spec_key_name(5) == "typing"@ + "."@ + "latin_layout"@) by {
        reveal_strlit("latin_layout");
        reveal_strlit("typing");
        reveal_strlit(".");
        reveal_strlit("typing.latin_layout");
        assert("typing.latin_layout"@ =~= "typing"@ + "."@ + "latin_layout"@);
    }
    lemma_str_value(c.latin_layout);
    lemma_pair_step(c, ls, 10, 5, "typing"@, false, "latin_layout"@, quoted(c.latin_layout));
    assert(name_chars("inline_preview"@) && "typing"@.len() > 0
        && spec_key_name(6) == "typing"@ + "."@ + "inline_preview"@) by {
        reveal_strlit("inline_preview");
        reveal_strlit("typing");
        reveal_strlit(".");
        reveal_strlit("typing.inline_preview");
        assert("typing.inline_preview"@ =~= "typing"@ + "."@ + "inline_preview"@);
    }
    lemma_str_value(c.inline_preview);
    lemma_pair_step(c, ls, 11, 6, "typing"@, false, "inline_preview"@, quoted(c.inline_preview));
    assert(name_chars("candidates_per_page"@) && "typing"@.len() > 0
        && spec_key_name(7) == "typing"@ + "."@ + "candidates_per_page"@) by {
        reveal_strlit("candidates_per_page");
        reveal_strlit("typing");
        reveal_strlit(".");
        reveal_strlit("typing.candidates_per_page");
        assert("typing.candidates_per_page"@ =~= "typing"@ + "."@ + "candidates_per_page"@);
    }
    lemma_int_value(c.candidates_per_page);
    lemma_pair_step(c, ls, 12, 7, "typing"@, false, "candidates_per_page"@, int_text(c.candidates_per_page as int));
}

#[verifier::spinoff_prover]
proof fn lemma_read_typing_rest(c: ConfigView)
    requires
        writable_view(c),
        read_upto(c, toml_lines(c), 13, "typing"@, 8),
    ensures
        read_upto(c, toml_lines(c), 18, "typing"@, 13),
{
    let ls = toml_lines(c);
    assert(name_chars("predictive_completions"@) && "typing"@.len() > 0
        && spec_key_name(8) == "typing"@ + "."@ + "predictive_completions"@) by {
        reveal_strlit("predictive_completions");
        reveal_strlit("typing");
        reveal_strlit(".");
        reveal_strlit("typing.predictive_completions");
        assert("typing.predictive_completions"@ =~= "typing"@ + "."@ + "predictive_completions"@);
    }
    lemma_bool_value(c.predictive_completions);
    lemma_pair_step(c, ls, 13, 8, "typing"@, true, "predictive_completions"@, bool_text(c.predictive_completions));
    assert(name_chars("article_joining"@) && "typing"@.len() > 0
        && spec_key_name(9) == "typing"@ + "."@ + "article_joining"@) by {
        reveal_strlit("article_joining");
        reveal_strlit("typing");
        reveal_strlit(".");
        reveal_strlit("typing.article_joining");
        assert("typing.article_joining"@ =~= "typing"@ + "."@ + "article_joining"@);
    }
    lemma_bool_value(c.article_joining);
    lemma_pair_step(c, ls, 14, 9, "typing"@, false, "article_joining"@, bool_text(c.article_joining));
    assert(name_chars("reedit_backspace"@) && "typing"@.len() > 0
        && spec_key_name(10) == "typing"@ + "."@ + "reedit_backspace"@) by {
        reveal_strlit("reedit_backspace");
        reveal_strlit("typing");
        reveal_strlit(".");
        reveal_strlit("typing.reedit_backspace");
        assert("typing.reedit_backspace"@ =~= "typing"@ + "."@ + "reedit_backspace"@);
    }
    lemma_bool_value(c.reedit_backspace);
    lemma_pair_step(c, ls, 15, 10, "typing"@, false, "reedit_backspace"@, bool_text(c.reedit_backspace));
    assert(name_chars("commit_on_focus_loss"@) && "typing"@.len() > 0
        && spec_key_name(11) == "typing"@ + "."@ + "commit_on_focus_loss"@) by {
        reveal_strlit("commit_on_focus_loss");
        reveal_strlit("typing");
        reveal_strlit(".");
        reveal_strlit("typing.commit_on_focus_loss");
        assert("typing.commit_on_focus_loss"@ =~= "typing"@ + "."@ + "commit_on_focus_loss"@);
    }
    lemma_str_value(c.commit_on_focus_loss);
    lemma_pair_step(c, ls, 16, 11, "typing"@, true, "commit_on_focus_loss"@, quoted(c.commit_on_focus_loss));
    assert(name_chars("latin_in_url_email"@) && "typing"@.len() > 0
        && spec_key_name(12) == "typing"@ + "."@ + "latin_in_url_email"@) by {
        reveal_strlit("latin_in_url_email");
        reveal_strlit("typing");
        reveal_strlit(".");
        reveal_strlit("typing.latin_in_url_email");
        assert("typing.latin_in_url_email"@ =~= "typing"@ + "."@ + "latin_in_url_email"@);
    }
    lemma_bool_value(c.latin_in_url_email);
    lemma_pair_step(c, ls, 17, 12, "typing"@, false, "latin_in_url_email"@, bool_text(c.latin_in_url_email));
}

#[verifier::spinoff_prover]
proof fn lemma_read_dialect(c: ConfigView)
    requires
        writable_view(c),
        read_upto(c, toml_lines(c), 18, "typing"@, 13),
    ensures
        read_upto(c, toml_lines(c), 22, "dialect"@, 15),
{
    let ls = toml_lines(c);
    lemma_blank_step(c, ls, 18, 13, "typing"@);
    assert(name_chars("dialect"@)) by {
        reveal_strlit("dialect");
    }
    lemma_section_step(c, ls, 19, 13, "typing"@, "dialect"@);
    assert(name_chars("profile"@) && "dialect"@.len() > 0
        && spec_key_name(13) == "dialect"@ + "."@ + "profile"@) by {
        reveal_strlit("profile");
        reveal_strlit("dialect");
        reveal_strlit(".");
        reveal_strlit("dialect.profile");
        assert("dialect.profile"@ =~= "dialect"@ + "."@ + "profile"@);
    }
    lemma_str_value(c.dialect_profile);
    lemma_pair_step(c, ls, 20, 13, "dialect"@, false, "profile"@, quoted(c.dialect_profile));
    assert(name_chars("seed_from_region"@) && "dialect"@.len() > 0
        && spec_key_name(14) == "dialect"@ + "."@ + "seed_from_region"@) by {
        reveal_strlit("seed_from_region");
        reveal_strlit("dialect");
        reveal_strlit(".");
        reveal_strlit("dialect.seed_from_region");
        assert("dialect.seed_from_region"@ =~= "dialect"@ + "."@ + "seed_from_region"@);
    }
    lemma_bool_value(c.seed_from_region);
    lemma_pair_step(c, ls, 21, 14, "dialect"@, false, "seed_from_region"@, bool_text(c.seed_from_region));
}

#[verifier::spinoff_prover]
proof fn lemma_read_style(c: ConfigView)
    requires
        writable_view(c),
        read_upto(c, toml_lines(c), 22, "dialect"@, 15),
    ensures
        read_upto(c, toml_lines(c), 27, "style"@, 18),
{
    let ls = toml_lines(c);
    lemma_blank_step(c, ls, 22, 15, "dialect"@);
    assert(name_chars("style"@)) by {
        reveal_strlit("style");
    }
    lemma_section_step(c, ls, 23, 15, "dialect"@, "style"@);
    assert(name_chars("allah_form"@) && "style"@.len() > 0
        && spec_key_name(15) == "style"@ + "."@ + "allah_form"@) by {
        reveal_strlit("allah_form");
        reveal_strlit("style");
        reveal_strlit(".");
        reveal_strlit("style.allah_form");
        assert("style.allah_form"@ =~= "style"@ + "."@ + "allah_form"@);
    }
    lemma_str_value(c.allah_form);
    lemma_pair_step(c, ls, 24, 15, "style"@, false, "allah_form"@, quoted(c.allah_form));
    assert(name_chars("adverbial_tanween"@) && "style"@.len() > 0
        && spec_key_name(16) == "style"@ + "."@ + "adverbial_tanween"@) by {
        reveal_strlit("adverbial_tanween");
        reveal_strlit("style");
        reveal_strlit(".");
        reveal_strlit("style.adverbial_tanween");
        assert("style.adverbial_tanween"@ =~= "style"@ + "."@ + "adverbial_tanween"@);
    }
    lemma_bool_value(c.adverbial_tanween);
    lemma_pair_step(c, ls, 25, 16, "style"@, false, "adverbial_tanween"@, bool_text(c.adverbial_tanween));
    assert(name_chars("tanween_style"@) && "style"@.len() > 0
        && spec_key_name(17) == "style"@ + "."@ + "tanween_style"@) by {
        reveal_strlit("tanween_style");
        reveal_strlit("style");
        reveal_strlit(".");
        reveal_strlit("style.tanween_style");
        assert("style.tanween_style"@ =~= "style"@ + "."@ + "tanween_style"@);
    }
    lemma_str_value(c.tanween_style);
    lemma_pair_step(c, ls, 26, 17, "style"@, false, "tanween_style"@, quoted(c.tanween_style));
}

#[verifier::spinoff_prover]
proof fn lemma_read_style_rest(c: ConfigView)
    requires
        writable_view(c),
        read_upto(c, toml_lines(c), 27, "style"@, 18),
    ensures
        read_upto(c, toml_lines(c), 31, "style"@, 22),
{
    let ls = toml_lines(c);
    assert(name_chars("hamza"@) && "style"@.len() > 0
        && spec_key_name(18) == "style"@ + "."@ + "hamza"@) by {
        reveal_strlit("hamza");
        reveal_strlit("style");
        reveal_strlit(".");
        reveal_strlit("style.hamza");
        assert("style.hamza"@ =~= "style"@ + "."@ + "hamza"@);
    }
    lemma_str_value(c.hamza);
    lemma_pair_step(c, ls, 27, 18, "style"@, false, "hamza"@, quoted(c.hamza));
    assert(name_chars("vowel_harakat"@) && "style"@.len() > 0
        && spec_key_name(19) == "style"@ + "."@ + "vowel_harakat"@) by {
        reveal_strlit("vowel_harakat");
        reveal_strlit("style");
        reveal_strlit(".");
        reveal_strlit("style.vowel_harakat");
        assert("style.vowel_harakat"@ =~= "style"@ + "."@ + "vowel_harakat"@);
    }
    lemma_str_value(c.vowel_harakat);
    lemma_pair_step(c, ls, 28, 19, "style"@, true, "vowel_harakat"@, quoted(c.vowel_harakat));
    assert(name_chars("arabic_punctuation"@) && "style"@.len() > 0
        && spec_key_name(20) == "style"@ + "."@ + "arabic_punctuation"@) by {
        reveal_strlit("arabic_punctuation");
        reveal_strlit("style");
        reveal_strlit(".");
        reveal_strlit("style.arabic_punctuation");
        assert("style.arabic_punctuation"@ =~= "style"@ + "."@ + "arabic_punctuation"@);
    }
    lemma_bool_value(c.arabic_punctuation);
    lemma_pair_step(c, ls, 29, 20, "style"@, false, "arabic_punctuation"@, bool_text(c.arabic_punctuation));
    assert(name_chars("numerals"@) && "style"@.len() > 0
        && spec_key_name(21) == "style"@ + "."@ + "numerals"@) by {
        reveal_strlit("numerals");
        reveal_strlit("style");
        reveal_strlit(".");
        reveal_strlit("style.numerals");
        assert("style.numerals"@ =~= "style"@ + "."@ + "numerals"@);
    }
    lemma_str_value(c.numerals);
    lemma_pair_step(c, ls, 30, 21, "style"@, false, "numerals"@, quoted(c.numerals));
}

#[verifier::spinoff_prover]
proof fn lemma_read_learning(c: ConfigView)
    requires
        writable_view(c),
        read_upto(c, toml_lines(c), 31, "style"@, 22),
    ensures
        read_upto(c, toml_lines(c), 35, "learning"@, 24),
{
    let ls = toml_lines(c);
    lemma_blank_step(c, ls, 31, 22, "style"@);
    assert(name_chars("learning"@)) by {
        reveal_strlit("learning");
    }
    lemma_section_step(c, ls, 32, 22, "style"@, "learning"@);
    assert(name_chars("enabled"@) && "learning"@.len() > 0
        && spec_key_name(22) == "learning"@ + "."@ + "enabled"@) by {
        reveal_strlit("enabled");
        reveal_strlit("learning");
        reveal_strlit(".");
        reveal_strlit("learning.enabled");
        assert("learning.enabled"@ =~= "learning"@ + "."@ + "enabled"@);
    }
    lemma_bool_value(c.learning_enabled);
    lemma_pair_step(c, ls, 33, 22, "learning"@, false, "enabled"@, bool_text(c.learning_enabled));
    assert(name_chars("sticky_last_choice"@) && "learning"@.len() > 0
        && spec_key_name(23) == "learning"@ + "."@ + "sticky_last_choice"@) by {
        reveal_strlit("sticky_last_choice");
        reveal_strlit("learning");
        reveal_strlit(".");
        reveal_strlit("learning.sticky_last_choice");
        assert("learning.sticky_last_choice"@ =~= "learning"@ + "."@ + "sticky_last_choice"@);
    }
    lemma_bool_value(c.sticky_last_choice);
    lemma_pair_step(c, ls, 34, 23, "learning"@, false, "sticky_last_choice"@, bool_text(c.sticky_last_choice));
}

#[verifier::spinoff_prover]
proof fn lemma_read_privacy(c: ConfigView)
    requires
        writable_view(c),
        read_upto(c, toml_lines(c), 35, "learning"@, 24),
    ensures
        read_upto(c, toml_lines(c), 38, "privacy"@, 25),
{
    let ls = toml_lines(c);
    lemma_blank_step(c, ls, 35, 24, "learning"@);
    assert(name_chars("privacy"@)) by {
        reveal_strlit("privacy");
    }
    lemma_section_step(c, ls, 36, 24, "learning"@, "privacy"@);
    assert(name_chars("use_surrounding_text"@) && "privacy"@.len() > 0
        && spec_key_name(24) == "privacy"@ + "."@ + "use_surrounding_text"@) by {
        reveal_strlit("use_surrounding_text");
        reveal_strlit("privacy");
        reveal_strlit(".");
        reveal_strlit("privacy.use_surrounding_text");
        assert("privacy.use_surrounding_text"@ =~= "privacy"@ + "."@ + "use_surrounding_text"@);
    }
    lemma_bool_value(c.use_surrounding_text);
    lemma_pair_step(c, ls, 37, 24, "privacy"@, false, "use_surrounding_text"@, bool_text(c.use_surrounding_text));
}

#[verifier::spinoff_prover]
proof fn lemma_read_appearance(c: ConfigView)
    requires
        writable_view(c),
        read_upto(c, toml_lines(c), 38, "privacy"@, 25),
    ensures
        read_upto(c, toml_lines(c), 43, "appearance"@, 28),
{
    let ls = toml_lines(c);
    lemma_blank_step(c, ls, 38, 25, "privacy"@);
    assert(name_chars("appearance"@)) by {
        reveal_strlit("appearance");
    }
    lemma_section_step(c, ls, 39, 25, "privacy"@, "appearance"@);
    assert(name_chars("theme"@) && "appearance"@.len() > 0
        && spec_key_name(25) == "appearance"@ + "."@ + "theme"@) by {
        reveal_strlit("theme");
        reveal_strlit("appearance");
        reveal_strlit(".");
        reveal_strlit("appearance.theme");
        assert("appearance.theme"@ =~= "appearance"@ + "."@ + "theme"@);
    }
    lemma_str_value(c.theme);
    lemma_pair_step(c, ls, 40, 25, "appearance"@, false, "theme"@, quoted(c.theme));
    assert(name_chars("font_family"@) && "appearance"@.len() > 0
        && spec_key_name(26) == "appearance"@ + "."@ + "font_family"@) by {
        reveal_strlit("font_family");
        reveal_strlit("appearance");
        reveal_strlit(".");
        reveal_strlit("appearance.font_family");
        assert("appearance.font_family"@ =~= "appearance"@ + "."@ + "font_family"@);
    }
    lemma_str_value(c.font_family);
    lemma_pair_step(c, ls, 41, 26, "appearance"@, false, "font_family"@, quoted(c.font_family));
    assert(name_chars("font_size"@) && "appearance"@.len() > 0
        && spec_key_name(27) == "appearance"@ + "."@ + "font_size"@) by {
        reveal_strlit("font_size");
        reveal_strlit("appearance");
        reveal_strlit(".");
        reveal_strlit("appearance.font_size");
        assert("appearance.font_size"@ =~= "appearance"@ + "."@ + "font_size"@);
    }
    lemma_int_value(c.font_size);
    lemma_pair_step(c, ls, 42, 27, "appearance"@, false, "font_size"@, int_text(c.font_size as int));
}

#[verifier::spinoff_prover]
proof fn lemma_read_appearance_rest(c: ConfigView)
    requires
        writable_view(c),
        read_upto(c, toml_lines(c), 43, "appearance"@, 28),
    ensures
        read_upto(c, toml_lines(c), 45, "appearance"@, 30),
{
    let ls = toml_lines(c);
    assert(name_chars("footer_hints"@) && "appearance"@.len() > 0
        && spec_key_name(28) == "appearance"@ + "."@ + "footer_hints"@) by {
        reveal_strlit("footer_hints");
        reveal_strlit("appearance");
        reveal_strlit(".");
        reveal_strlit("appearance.footer_hints");
        assert("appearance.footer_hints"@ =~= "appearance"@ + "."@ + "footer_hints"@);
    }
    lemma_str_value(c.footer_hints);
    lemma_pair_step(c, ls, 43, 28, "appearance"@, false, "footer_hints"@, quoted(c.footer_hints));
    assert(name_chars("show_dialect_badge"@) && "appearance"@.len() > 0
        && spec_key_name(29) == "appearance"@ + "."@ + "show_dialect_badge"@) by {
        reveal_strlit("show_dialect_badge");
        reveal_strlit("appearance");
        reveal_strlit(".");
        reveal_strlit("appearance.show_dialect_badge");
        assert("appearance.show_dialect_badge"@ =~= "appearance"@ + "."@ + "show_dialect_badge"@);
    }
    lemma_bool_value(c.show_dialect_badge);
    lemma_pair_step(c, ls, 44, 29, "appearance"@, true, "show_dialect_badge"@, bool_text(c.show_dialect_badge));
}

#[verifier::spinoff_prover]
proof fn lemma_read_apps(c: ConfigView)
    requires
        writable_view(c),
        read_upto(c, toml_lines(c), 45, "appearance"@, 30),
    ensures
        read_upto(c, toml_lines(c), 50, "apps"@, 33),
{
    let ls = toml_lines(c);
    lemma_blank_step(c, ls, 45, 30, "appearance"@);
    assert(name_chars("apps"@)) by {
        reveal_strlit("apps");
    }
    lemma_section_step(c, ls, 46, 30, "appearance"@, "apps"@);
    assert(name_chars("excluded"@) && "apps"@.len() > 0
        && spec_key_name(30) == "apps"@ + "."@ + "excluded"@) by {
        reveal_strlit("excluded");
        reveal_strlit("apps");
        reveal_strlit(".");
        reveal_strlit("apps.excluded");
        assert("apps.excluded"@ =~= "apps"@ + "."@ + "excluded"@);
    }
    lemma_list_value(c.excluded_apps);
    lemma_pair_step(c, ls, 47, 30, "apps"@, false, "excluded"@, list_text(c.excluded_apps));
    assert(name_chars("rtl_assist"@) && "apps"@.len() > 0
        && spec_key_name(31) == "apps"@ + "."@ + "rtl_assist"@) by {
        reveal_strlit("rtl_assist");
        reveal_strlit("apps");
        reveal_strlit(".");
        reveal_strlit("apps.rtl_assist");
        assert("apps.rtl_assist"@ =~= "apps"@ + "."@ + "rtl_assist"@);
    }
    lemma_bool_value(c.rtl_assist);
    lemma_pair_step(c, ls, 48, 31, "apps"@, false, "rtl_assist"@, bool_text(c.rtl_assist));
    assert(name_chars("rtl_assist_classes"@) && "apps"@.len() > 0
        && spec_key_name(32) == "apps"@ + "."@ + "rtl_assist_classes"@) by {
        reveal_strlit("rtl_assist_classes");
        reveal_strlit("apps");
        reveal_strlit(".");
        reveal_strlit("apps.rtl_assist_classes");
        assert("apps.rtl_assist_classes"@ =~= "apps"@ + "."@ + "rtl_assist_classes"@);
    }
    lemma_list_value(c.rtl_assist_classes);
    lemma_pair_step(c, ls, 49, 32, "apps"@, false, "rtl_assist_classes"@, list_text(c.rtl_assist_classes));
}

#[verifier::spinoff_prover]
proof fn lemma_read_keys(c: ConfigView)
    requires
        writable_view(c),
        read_upto(c, toml_lines(c), 50, "apps"@, 33),
    ensures
        read_upto(c, toml_lines(c), 55, "keys"@, 36),
{
    let ls = toml_lines(c);
    lemma_blank_step(c, ls, 50, 33, "apps"@);
    assert(name_chars("keys"@)) by {
        reveal_strlit("keys");
    }
    lemma_section_step(c, ls, 51, 33, "apps"@, "keys"@);
    assert(name_chars("commit_latin"@) && "keys"@.len() > 0
        && spec_key_name(33) == "keys"@ + "."@ + "commit_latin"@) by {
        reveal_strlit("commit_latin");
        reveal_strlit("keys");
        reveal_strlit(".");
        reveal_strlit("keys.commit_latin");
        assert("keys.commit_latin"@ =~= "keys"@ + "."@ + "commit_latin"@);
    }
    lemma_str_value(c.key_commit_latin);
    lemma_pair_step(c, ls, 52, 33, "keys"@, false, "commit_latin"@, quoted(c.key_commit_latin));
    assert(name_chars("open_tashkeel"@) && "keys"@.len() > 0
        && spec_key_name(34) == "keys"@ + "."@ + "open_tashkeel"@) by {
        reveal_strlit("open_tashkeel");
        reveal_strlit("keys");
        reveal_strlit(".");
        reveal_strlit("keys.open_tashkeel");
        assert("keys.open_tashkeel"@ =~= "keys"@ + "."@ + "open_tashkeel"@);
    }
    lemma_str_value(c.key_open_tashkeel);
    lemma_pair_step(c, ls, 53, 34, "keys"@, false, "open_tashkeel"@, quoted(c.key_open_tashkeel));
    assert(name_chars("commit_harakat"@) && "keys"@.len() > 0
        && spec_key_name(35) == "keys"@ + "."@ + "commit_harakat"@) by {
        reveal_strlit("commit_harakat");
        reveal_strlit("keys");
        reveal_strlit(".");
        reveal_strlit("keys.commit_harakat");
        assert("keys.commit_harakat"@ =~= "keys"@ + "."@ + "commit_harakat"@);
    }
    lemma_str_value(c.key_commit_harakat);
    lemma_pair_step(c, ls, 54, 35, "keys"@, false, "commit_harakat"@, quoted(c.key_commit_harakat));
}

/// What `Config::to_toml` writes, `Config::parse` reads back as the same configuration, with no
/// warning: for every configuration whose values pass their checks and whose texts hold no
/// double quote and no line break (and, in the lists, no comma).
pub proof fn law_toml_round_trip(c: ConfigView)
    requires
        valid_view(c),
        writable_view(c),
    ensures
        spec_config(toml_text(c)) == (c, Seq::<Seq<char>>::empty()),
{
    let ls = toml_lines(c);
    assert(read_upto(c, ls, 0, Seq::<char>::empty(), 0)) by {
        assert(toml_pairs(c).take(0) =~= Seq::<(Seq<char>, VView)>::empty());
    }
    lemma_read_top(c);
    lemma_read_general(c);
    lemma_read_general_rest(c);
    lemma_read_typing(c);
    lemma_read_typing_rest(c);
    lemma_read_dialect(c);
    lemma_read_style(c);
    lemma_read_style_rest(c);
    lemma_read_learning(c);
    lemma_read_privacy(c);
    lemma_read_appearance(c);
    lemma_read_appearance_rest(c);
    lemma_read_apps(c);
    lemma_read_keys(c);
    assert(toml_pairs(c).take(36) =~= toml_pairs(c));
    assert forall|i: int| 0 <= i < ls.len() implies free_of(#[trigger] ls[i], '\n') && (ls[i].len()
        == 0 || ls[i].last() != '\r') by {
        assert(line_ok(ls[i]));
    }
    lemma_text_lines(ls);
    assert(spec_parse_toml(toml_text(c)) == read_state(c, "keys"@, 36));
    law_pairs_restore_config(c, default_view(), Seq::empty());
}

} // verus!
