//! The `Stage` object: settings that a script reads and writes, and the
//! display-object properties it refuses to change.

use vstd::prelude::*;
use vstd::string::*;
use crate::value::{to_boolean, Error, Number, Val, Value};

verus! {

/// Align to the top edge.
pub const ALIGN_TOP: u8 = 1;

/// Align to the bottom edge.
pub const ALIGN_BOTTOM: u8 = 2;

/// Align to the left edge.
pub const ALIGN_LEFT: u8 = 4;

/// Align to the right edge.
pub const ALIGN_RIGHT: u8 = 8;

/// What the stage's getters and setters read and write.
#[derive(Clone, Debug, PartialEq)]
pub struct StageState {
    /// Alignment flags.
    pub align: u8,
    pub fullscreen: bool,
    pub show_menu: bool,
    pub width: u32,
    pub height: u32,
}

/// `r` is the error refusing an operation, with `msg`.
pub open spec fn is_refusal(r: Result<Value, Error>, msg: Seq<char>) -> bool {
    r is Err && r->Err_0 is IllegalOperation && r->Err_0->IllegalOperation_0@ == msg
}

fn refuse(msg: &str) -> (r: Result<Value, Error>)
    ensures
        is_refusal(r, msg@),
{
    Err(Error::IllegalOperation(String::from_str(msg)))
}

/// Implements `Stage`'s instance constructor: a stage cannot be constructed.
pub fn instance_init(args: &[Value]) -> (r: Result<Value, Error>)
    ensures
        is_refusal(r, "You cannot construct new instances of the Stage."@),
{
    refuse("You cannot construct new instances of the Stage.")
}

/// Implements `Stage`'s native instance constructor.
pub fn native_instance_init(args: &[Value]) -> (r: Result<Value, Error>)
    ensures
        r is Ok && r->Ok_0@ == Val::Undefined,
{
    Ok(Value::Undefined)
}

/// Implements `Stage`'s class constructor.
pub fn class_init(args: &[Value]) -> (r: Result<Value, Error>)
    ensures
        r is Ok && r->Ok_0@ == Val::Undefined,
{
    Ok(Value::Undefined)
}

/// Overrides `name`'s getter: the stage has no name.
pub fn name(args: &[Value]) -> (r: Result<Value, Error>)
    ensures
        r is Ok && r->Ok_0@ == Val::Null,
{
    Ok(Value::Null)
}

/// Overrides `accessibilityProperties`'s setter, which the stage refuses.
pub fn set_accessibility_properties(args: &[Value]) -> (r: Result<Value, Error>)
    ensures
        is_refusal(r, "Error: You cannot set accessibility properties on the stage."@),
{
    refuse("Error: You cannot set accessibility properties on the stage.")
}

/// Overrides `alpha`'s setter, which the stage refuses.
pub fn set_alpha(args: &[Value]) -> (r: Result<Value, Error>)
    ensures
        is_refusal(r, "Error: You cannot set the stage's opacity."@),
{
    refuse("Error: You cannot set the stage's opacity.")
}

/// Overrides `blendMode`'s setter, which the stage refuses.
pub fn set_blend_mode(args: &[Value]) -> (r: Result<Value, Error>)
    ensures
        is_refusal(r, "Error: You cannot set the blend mode of the stage."@),
{
    refuse("Error: You cannot set the blend mode of the stage.")
}

/// Overrides `cacheAsBitmap`'s setter, which the stage refuses.
pub fn set_cache_as_bitmap(args: &[Value]) -> (r: Result<Value, Error>)
    ensures
        is_refusal(r, "Error: You cannot set the stage to be cached as a bitmap."@),
{
    refuse("Error: You cannot set the stage to be cached as a bitmap.")
}

/// Overrides `contextMenu`'s setter, which the stage refuses.
pub fn set_context_menu(args: &[Value]) -> (r: Result<Value, Error>)
    ensures
        is_refusal(r, "Error: You cannot set the stage's context menu."@),
{
    refuse("Error: You cannot set the stage's context menu.")
}

/// Overrides `filters`'s setter, which the stage refuses.
pub fn set_filters(args: &[Value]) -> (r: Result<Value, Error>)
    ensures
        is_refusal(r, "Error: You cannot apply filters to the stage."@),
{
    refuse("Error: You cannot apply filters to the stage.")
}

/// Overrides `focusRect`'s setter, which the stage refuses.
pub fn set_focus_rect(args: &[Value]) -> (r: Result<Value, Error>)
    ensures
        is_refusal(r, "Error: You cannot set the stage's focus rect."@),
{
    refuse("Error: You cannot set the stage's focus rect.")
}

/// Overrides `loaderInfo`'s setter, which the stage refuses.
pub fn set_loader_info(args: &[Value]) -> (r: Result<Value, Error>)
    ensures
        is_refusal(r, "Error: You cannot set the blend mode of the stage."@),
{
    refuse("Error: You cannot set the blend mode of the stage.")
}

/// Overrides `mask`'s setter, which the stage refuses.
pub fn set_mask(args: &[Value]) -> (r: Result<Value, Error>)
    ensures
        is_refusal(r, "Error: You cannot mask the stage."@),
{
    refuse("Error: You cannot mask the stage.")
}

/// Overrides `mouseEnabled`'s setter, which the stage refuses.
pub fn set_mouse_enabled(args: &[Value]) -> (r: Result<Value, Error>)
    ensures
        is_refusal(r, "Error: You cannot enable or disable the mouse on the stage."@),
{
    refuse("Error: You cannot enable or disable the mouse on the stage.")
}

/// Overrides `name`'s setter, which the stage refuses.
pub fn set_name(args: &[Value]) -> (r: Result<Value, Error>)
    ensures
        is_refusal(r, "Error: You cannot set the name of the stage."@),
{
    refuse("Error: You cannot set the name of the stage.")
}

/// Overrides `opaqueBackground`'s setter, which the stage refuses.
pub fn set_opaque_background(args: &[Value]) -> (r: Result<Value, Error>)
    ensures
        is_refusal(r, "Error: You cannot give or take away the stage's opaque background."@),
{
    refuse("Error: You cannot give or take away the stage's opaque background.")
}

/// Overrides `rotation`'s setter, which the stage refuses.
pub fn set_rotation(args: &[Value]) -> (r: Result<Value, Error>)
    ensures
        is_refusal(r, "Error: You cannot rotate the stage."@),
{
    refuse("Error: You cannot rotate the stage.")
}

/// Overrides `scale9Grid`'s setter, which the stage refuses.
pub fn set_scale_nine_grid(args: &[Value]) -> (r: Result<Value, Error>)
    ensures
        is_refusal(r, "Error: You cannot set the stage's 9-slice grid."@),
{
    refuse("Error: You cannot set the stage's 9-slice grid.")
}

/// Overrides `scaleX`'s setter, which the stage refuses.
pub fn set_scale_x(args: &[Value]) -> (r: Result<Value, Error>)
    ensures
        is_refusal(r, "Error: You cannot set the stage's horizontal scale."@),
{
    refuse("Error: You cannot set the stage's horizontal scale.")
}

/// Overrides `scaleY`'s setter, which the stage refuses.
pub fn set_scale_y(args: &[Value]) -> (r: Result<Value, Error>)
    ensures
        is_refusal(r, "Error: You cannot set the stage's vertical scale."@),
{
    refuse("Error: You cannot set the stage's vertical scale.")
}

/// Overrides `scrollRect`'s setter, which the stage refuses.
pub fn set_scroll_rect(args: &[Value]) -> (r: Result<Value, Error>)
    ensures
        is_refusal(r, "Error: You cannot set the stage's scroll rectangle."@),
{
    refuse("Error: You cannot set the stage's scroll rectangle.")
}

/// Overrides `tabEnabled`'s setter, which the stage refuses.
pub fn set_tab_enabled(args: &[Value]) -> (r: Result<Value, Error>)
    ensures
        is_refusal(r, "Error: You cannot enable or disable tabbing the stage."@),
{
    refuse("Error: You cannot enable or disable tabbing the stage.")
}

/// Overrides `tabIndex`'s setter, which the stage refuses.
pub fn set_tab_index(args: &[Value]) -> (r: Result<Value, Error>)
    ensures
        is_refusal(r, "Error: You cannot set the stage's tab index."@),
{
    refuse("Error: You cannot set the stage's tab index.")
}

/// Overrides `transform`'s setter, which the stage refuses.
pub fn set_transform(args: &[Value]) -> (r: Result<Value, Error>)
    ensures
        is_refusal(r, "Error: You cannot transform the stage."@),
{
    refuse("Error: You cannot transform the stage.")
}

/// Overrides `visible`'s setter, which the stage refuses.
pub fn set_visible(args: &[Value]) -> (r: Result<Value, Error>)
    ensures
        is_refusal(r, "Error: You cannot hide or unhide the stage."@),
{
    refuse("Error: You cannot hide or unhide the stage.")
}

/// Overrides `x`'s setter, which the stage refuses.
pub fn set_x(args: &[Value]) -> (r: Result<Value, Error>)
    ensures
        is_refusal(r, "Error: You cannot move the stage horizontally."@),
{
    refuse("Error: You cannot move the stage horizontally.")
}

/// Overrides `y`'s setter, which the stage refuses.
pub fn set_y(args: &[Value]) -> (r: Result<Value, Error>)
    ensures
        is_refusal(r, "Error: You cannot move the stage vertically."@),
{
    refuse("Error: You cannot move the stage vertically.")
}

pub open spec fn has_align(bits: u8, flag: u8) -> bool {
    bits & flag == flag
}

pub open spec fn flag_text(bits: u8, flag: u8, c: char) -> Seq<char> {
    if has_align(bits, flag) {
        seq![c]
    } else {
        Seq::empty()
    }
}

/// The alignment as text: a letter per flag, in the order T, B, L, R.
pub open spec fn align_text(bits: u8) -> Seq<char> {
    flag_text(bits, ALIGN_TOP, 'T') + flag_text(bits, ALIGN_BOTTOM, 'B') + flag_text(bits, ALIGN_LEFT, 'L')
        + flag_text(bits, ALIGN_RIGHT, 'R')
}

/// The flag a character of an alignment string stands for, in either case.
pub open spec fn align_flag_of(c: char) -> u8 {
    if c == 'T' || c == 't' {
        ALIGN_TOP
    } else if c == 'B' || c == 'b' {
        ALIGN_BOTTOM
    } else if c == 'L' || c == 'l' {
        ALIGN_LEFT
    } else if c == 'R' || c == 'r' {
        ALIGN_RIGHT
    } else {
        0
    }
}

/// The alignment an alignment string gives: the flags of all its letters;
/// other characters are ignored.
pub open spec fn align_of_text(s: Seq<char>) -> u8
    decreases s.len(),
{
    if s.len() == 0 {
        0
    } else {
        align_of_text(s.drop_last()) | align_flag_of(s.last())
    }
}

fn append_flag(s: &mut String, bits: u8, flag: u8, letter: &str, c: char)
    requires
        letter@ == seq![c],
    ensures
        final(s)@ == old(s)@ + flag_text(bits, flag, c),
{
    if bits & flag == flag {
        s.append(letter);
    } else {
        assert(old(s)@ + flag_text(bits, flag, c) =~= old(s)@);
    }
}

/// Implements `align`'s getter.
pub fn align(stage: &StageState) -> (r: Result<Value, Error>)
    ensures
        r is Ok && r->Ok_0@ == Val::String(align_text(stage.align)),
{
    proof {
        reveal_strlit("T");
        reveal_strlit("B");
        reveal_strlit("L");
        reveal_strlit("R");
        assert("T"@ =~= seq!['T']);
        assert("B"@ =~= seq!['B']);
        assert("L"@ =~= seq!['L']);
        assert("R"@ =~= seq!['R']);
    }
    let mut s = String::new();
    append_flag(&mut s, stage.align, ALIGN_TOP, "T", 'T');
    append_flag(&mut s, stage.align, ALIGN_BOTTOM, "B", 'B');
    append_flag(&mut s, stage.align, ALIGN_LEFT, "L", 'L');
    append_flag(&mut s, stage.align, ALIGN_RIGHT, "R", 'R');
    assert(s@ =~= align_text(stage.align));
    Ok(Value::String(s))
}

fn align_flag(c: char) -> (r: u8)
    ensures
        r == align_flag_of(c),
{
    if c == 'T' || c == 't' {
        ALIGN_TOP
    } else if c == 'B' || c == 'b' {
        ALIGN_BOTTOM
    } else if c == 'L' || c == 'l' {
        ALIGN_LEFT
    } else if c == 'R' || c == 'r' {
        ALIGN_RIGHT
    } else {
        0
    }
}

/// Implements `align`'s setter: the argument, as text, gives the flags.
pub fn set_align(stage: &mut StageState, args: &[Value]) -> (r: Result<Value, Error>)
    ensures
        r is Ok && r->Ok_0@ == Val::Undefined,
        final(stage).align == align_of_text(crate::value::to_text(crate::array::arg_or(args@, 0, Val::Undefined))),
        final(stage).fullscreen == old(stage).fullscreen,
        final(stage).show_menu == old(stage).show_menu,
        final(stage).width == old(stage).width,
        final(stage).height == old(stage).height,
{
    let text = crate::array::arg_or_undefined(args, 0).coerce_to_string();
    let t = text.as_str();
    let n = t.unicode_len();
    let mut bits: u8 = 0;
    let mut i: usize = 0;
    while i < n
        invariant
            n == t@.len(),
            i <= n,
            bits == align_of_text(t@.subrange(0, i as int)),
        decreases n - i,
    {
        assert(t@.subrange(0, i as int + 1).drop_last() =~= t@.subrange(0, i as int));
        bits = bits | align_flag(t.get_char(i));
        i = i + 1;
    }
    assert(t@.subrange(0, n as int) =~= t@);
    stage.align = bits;
    Ok(Value::Undefined)
}

/// Implements `displayState`'s getter.
pub fn display_state(stage: &StageState) -> (r: Result<Value, Error>)
    ensures
        r is Ok && r->Ok_0@ == Val::String(if stage.fullscreen { "fullScreenInteractive"@ } else { "normal"@ }),
{
    if stage.fullscreen {
        Ok(Value::String(String::from_str("fullScreenInteractive")))
    } else {
        Ok(Value::String(String::from_str("normal")))
    }
}

/// Implements `showDefaultContextMenu`'s getter.
pub fn show_default_context_menu(stage: &StageState) -> (r: Result<Value, Error>)
    ensures
        r is Ok && r->Ok_0@ == Val::Bool(stage.show_menu),
{
    Ok(Value::Bool(stage.show_menu))
}

/// Implements `showDefaultContextMenu`'s setter: the argument's truth.
pub fn set_show_default_context_menu(stage: &mut StageState, args: &[Value]) -> (r: Result<Value, Error>)
    ensures
        r is Ok && r->Ok_0@ == Val::Undefined,
        *final(stage) == (StageState {
            show_menu: to_boolean(crate::array::arg_or(args@, 0, Val::Undefined)),
            ..*old(stage)
        }),
{
    stage.show_menu = crate::array::arg_or_undefined(args, 0).coerce_to_boolean();
    Ok(Value::Undefined)
}

/// Implements `stageWidth`'s getter.
pub fn stage_width(stage: &StageState) -> (r: Result<Value, Error>)
    ensures
        r is Ok && r->Ok_0@ == Val::Number(Number::Int(stage.width as i64)),
{
    Ok(Value::Number(Number::Int(stage.width as i64)))
}

/// Implements `stageWidth`'s setter, which is accepted and ignored.
pub fn set_stage_width(stage: &mut StageState, args: &[Value]) -> (r: Result<Value, Error>)
    ensures
        r is Ok && r->Ok_0@ == Val::Undefined,
        *final(stage) == *old(stage),
{
    Ok(Value::Undefined)
}

/// Implements `stageHeight`'s getter.
pub fn stage_height(stage: &StageState) -> (r: Result<Value, Error>)
    ensures
        r is Ok && r->Ok_0@ == Val::Number(Number::Int(stage.height as i64)),
{
    Ok(Value::Number(Number::Int(stage.height as i64)))
}

/// Implements `stageHeight`'s setter, which is accepted and ignored.
pub fn set_stage_height(stage: &mut StageState, args: &[Value]) -> (r: Result<Value, Error>)
    ensures
        r is Ok && r->Ok_0@ == Val::Undefined,
        *final(stage) == *old(stage),
{
    Ok(Value::Undefined)
}

/// Implements `allowsFullScreen`'s getter.
pub fn allows_full_screen(args: &[Value]) -> (r: Result<Value, Error>)
    ensures
        r is Ok && r->Ok_0@ == Val::Bool(true),
{
    Ok(Value::Bool(true))
}

/// Implements `allowsFullScreenInteractive`'s getter.
pub fn allows_full_screen_interactive(args: &[Value]) -> (r: Result<Value, Error>)
    ensures
        r is Ok && r->Ok_0@ == Val::Bool(false),
{
    Ok(Value::Bool(false))
}

} // verus!
