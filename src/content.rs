use vstd::prelude::*;
use crate::decode::{EncodingTables, FontInfo, decode_outcome, decoded, font_decode, font_wf};
use crate::error::DocumentError;
use crate::geometry::{Matrix2D, Position, key_less, order_key, position_key};

verus! {

/// A drawing instruction of a page, as far as text recovery reads it.
#[derive(Debug, Clone)]
pub enum TextOp {
    BeginText,
    EndText,
    SetTextMatrix(Matrix2D),
    /// Selects the font that the page's resources declare under this name.
    SetFont(String),
    Draw(Vec<u8>),
    /// Draws several strings; the spacing between them is not read.
    DrawAdjusted(Vec<Vec<u8>>),
    Other,
}

/// Text gathered per position, in reading order: `(position key, text)`.
pub type TextModel = Seq<((int, int), Seq<char>)>;

/// The gathered text after `t` is drawn at key `k`: appended to the entry for
/// `k`, or a new entry before the first one with a larger key.
pub open spec fn model_add(m: TextModel, k: (int, int), t: Seq<char>) -> TextModel
    decreases m.len(),
{
    if m.len() == 0 {
        seq![(k, t)]
    } else if key_less(m[0].0, k) {
        seq![m[0]] + model_add(m.drop_first(), k, t)
    } else if m[0].0 == k {
        seq![(k, m[0].1 + t)] + m.drop_first()
    } else {
        seq![(k, t)] + m
    }
}

/// The keys of the model ascend strictly.
pub open spec fn model_sorted(m: TextModel) -> bool {
    forall|i: int, j: int| 0 <= i < j < m.len() ==> key_less(#[trigger] m[i].0, #[trigger] m[j].0)
}

proof fn lemma_model_add_bound(m: TextModel, k: (int, int), t: Seq<char>, lo: (int, int))
    requires
        key_less(lo, k),
        forall|j: int| 0 <= j < m.len() ==> key_less(lo, #[trigger] m[j].0),
    ensures
        forall|i: int| 0 <= i < model_add(m, k, t).len() ==> key_less(lo, #[trigger] model_add(m, k, t)[i].0),
    decreases m.len(),
{
    if m.len() > 0 {
        let d = m.drop_first();
        assert forall|j: int| 0 <= j < d.len() implies key_less(lo, #[trigger] d[j].0) by {
            assert(d[j] == m[j + 1]);
        }
        lemma_model_add_bound(d, k, t, lo);
        let r = model_add(m, k, t);
        if key_less(m[0].0, k) {
            assert forall|i: int| 0 <= i < r.len() implies key_less(lo, #[trigger] r[i].0) by {
                if i > 0 {
                    assert(r[i] == model_add(d, k, t)[i - 1]);
                }
            }
        } else if m[0].0 == k {
            assert forall|i: int| 0 <= i < r.len() implies key_less(lo, #[trigger] r[i].0) by {
                if i > 0 {
                    assert(r[i] == m[i]);
                }
            }
        } else {
            assert forall|i: int| 0 <= i < r.len() implies key_less(lo, #[trigger] r[i].0) by {
                if i > 0 {
                    assert(r[i] == m[i - 1]);
                }
            }
        }
    }
}

/// Adding text keeps the keys of the model strictly ascending.
pub proof fn lemma_model_add_sorted(m: TextModel, k: (int, int), t: Seq<char>)
    requires
        model_sorted(m),
    ensures
        model_sorted(model_add(m, k, t)),
    decreases m.len(),
{
    if m.len() > 0 {
        let d = m.drop_first();
        let r = model_add(m, k, t);
        assert(model_sorted(d)) by {
            assert forall|i: int, j: int| 0 <= i < j < d.len() implies key_less(#[trigger] d[i].0, #[trigger] d[j].0) by {
                assert(d[i] == m[i + 1] && d[j] == m[j + 1]);
            }
        }
        if key_less(m[0].0, k) {
            lemma_model_add_sorted(d, k, t);
            assert forall|j: int| 0 <= j < d.len() implies key_less(m[0].0, #[trigger] d[j].0) by {
                assert(d[j] == m[j + 1]);
            }
            lemma_model_add_bound(d, k, t, m[0].0);
            let q = model_add(d, k, t);
            assert forall|i: int, j: int| 0 <= i < j < r.len() implies key_less(#[trigger] r[i].0, #[trigger] r[j].0) by {
                assert(r[j] == q[j - 1]);
                if i > 0 {
                    assert(r[i] == q[i - 1]);
                }
            }
        } else if m[0].0 == k {
            assert forall|i: int, j: int| 0 <= i < j < r.len() implies key_less(#[trigger] r[i].0, #[trigger] r[j].0) by {
                assert(r[j] == m[j]);
                if i > 0 {
                    assert(r[i] == m[i]);
                }
            }
        } else {
            assert forall|i: int, j: int| 0 <= i < j < r.len() implies key_less(#[trigger] r[i].0, #[trigger] r[j].0) by {
                assert(r[j] == m[j - 1]);
                if i > 0 {
                    assert(r[i] == m[i - 1]);
                } else if j > 1 {
                    assert(key_less(m[0].0, m[j - 1].0));
                }
            }
        }
    }
}

/// The lines of a page: consecutive entries with the same `y` joined in order.
pub open spec fn group_lines(m: TextModel) -> Seq<(int, Seq<char>)>
    decreases m.len(),
{
    if m.len() == 0 {
        Seq::empty()
    } else {
        let prev = group_lines(m.drop_last());
        let e = m.last();
        if prev.len() > 0 && prev.last().0 == e.0.0 {
            prev.update(prev.len() - 1, (e.0.0, prev.last().1 + e.1))
        } else {
            prev.push((e.0.0, e.1))
        }
    }
}

/// The anchor of text drawn under transform `t`: the image of the origin,
/// with `y` negated so that it grows in reading order.
pub open spec fn anchor_key(t: Matrix2D) -> (int, int) {
    (-order_key(t.c1@), order_key(t.c0@))
}

/// The state of the replay: the anchor of the active transform (none outside
/// a text block), the active font, and the gathered text.
pub type ReplayState = (Option<(int, int)>, Option<FontInfo>, TextModel);

/// The font that the page declares under `name`; the first declaration counts.
pub open spec fn font_named(fonts: Seq<(String, FontInfo)>, name: Seq<char>) -> Option<FontInfo>
    decreases fonts.len(),
{
    if fonts.len() == 0 {
        None
    } else if fonts[0].0@ == name {
        Some(fonts[0].1)
    } else {
        font_named(fonts.drop_first(), name)
    }
}

/// Drawing one string at key `k` in font `font`.
pub open spec fn draw_text(
    font: Option<FontInfo>,
    m: TextModel,
    bytes: Seq<u8>,
    k: (int, int),
    tables: EncodingTables,
) -> Result<TextModel, DocumentError> {
    match decoded(font, bytes, tables) {
        Err(e) => Err(e),
        Ok(None) => Ok(m),
        Ok(Some(t)) => Ok(model_add(m, k, t)),
    }
}

/// Drawing the first `n` strings of an adjusted draw, all at key `k`.
pub open spec fn draw_texts(
    font: Option<FontInfo>,
    m: TextModel,
    texts: Seq<Vec<u8>>,
    k: (int, int),
    tables: EncodingTables,
    n: nat,
) -> Result<TextModel, DocumentError>
    decreases n,
{
    if n == 0 {
        Ok(m)
    } else {
        match draw_texts(font, m, texts, k, tables, (n - 1) as nat) {
            Err(e) => Err(e),
            Ok(p) => draw_text(font, p, texts[n - 1]@, k, tables),
        }
    }
}

pub open spec fn with_text(s: ReplayState, r: Result<TextModel, DocumentError>) -> Result<ReplayState, DocumentError> {
    match r {
        Err(e) => Err(e),
        Ok(m) => Ok((s.0, s.1, m)),
    }
}

/// One instruction of the replay.
pub open spec fn step(
    s: ReplayState,
    op: TextOp,
    fonts: Seq<(String, FontInfo)>,
    tables: EncodingTables,
) -> Result<ReplayState, DocumentError> {
    match op {
        TextOp::BeginText => Ok((Some((0int, 0int)), s.1, s.2)),
        TextOp::EndText => Ok((None, s.1, s.2)),
        TextOp::SetTextMatrix(m) => Ok((Some(anchor_key(m)), s.1, s.2)),
        TextOp::SetFont(name) => match font_named(fonts, name@) {
            Some(f) => Ok((s.0, Some(f), s.2)),
            None => Err(DocumentError::UnknownFont),
        },
        TextOp::Draw(bytes) => match s.0 {
            None => Ok(s),
            Some(k) => with_text(s, draw_text(s.1, s.2, bytes@, k, tables)),
        },
        TextOp::DrawAdjusted(texts) => match s.0 {
            None => Ok(s),
            Some(k) => with_text(s, draw_texts(s.1, s.2, texts@, k, tables, texts@.len())),
        },
        TextOp::Other => Ok(s),
    }
}

/// The replay of the first `n` instructions from the empty state.
pub open spec fn replay(
    ops: Seq<TextOp>,
    fonts: Seq<(String, FontInfo)>,
    tables: EncodingTables,
    n: nat,
) -> Result<ReplayState, DocumentError>
    decreases n,
{
    if n == 0 {
        Ok((None, None, Seq::empty()))
    } else {
        match replay(ops, fonts, tables, (n - 1) as nat) {
            Err(e) => Err(e),
            Ok(s) => step(s, ops[n - 1], fonts, tables),
        }
    }
}

/// The gathered text of an accumulator, by position key.
pub open spec fn model_of(acc: Seq<(Position, String)>) -> TextModel {
    acc.map_values(|e: (Position, String)| (position_key(e.0), e.1@))
}

proof fn lemma_model_add_skip(m: TextModel, k: (int, int), t: Seq<char>, i: int)
    requires
        0 <= i <= m.len(),
        forall|j: int| 0 <= j < i ==> key_less(#[trigger] m[j].0, k),
    ensures
        model_add(m, k, t) == m.take(i) + model_add(m.skip(i), k, t),
    decreases i,
{
    if i == 0 {
        assert(m.skip(0) =~= m);
        assert(m.take(0) + model_add(m, k, t) =~= model_add(m, k, t));
    } else {
        let d = m.drop_first();
        assert(key_less(m[0].0, k));
        assert forall|j: int| 0 <= j < i - 1 implies key_less(#[trigger] d[j].0, k) by {
            assert(d[j] == m[j + 1]);
        }
        lemma_model_add_skip(d, k, t, i - 1);
        assert(d.skip(i - 1) =~= m.skip(i));
        assert(seq![m[0]] + d.take(i - 1) =~= m.take(i));
        assert(model_add(m, k, t) == seq![m[0]] + model_add(d, k, t));
        assert(seq![m[0]] + (d.take(i - 1) + model_add(m.skip(i), k, t)) =~= m.take(i) + model_add(m.skip(i), k, t));
    }
}

/// Adds text `t` drawn at `p` to the accumulator.
fn add_text(acc: &mut Vec<(Position, String)>, p: Position, t: &str)
    ensures
        model_of(final(acc)@) == model_add(model_of(old(acc)@), position_key(p), t@),
{
    let ghost m = model_of(acc@);
    let ghost k = position_key(p);
    let mut i: usize = 0;
    while i < acc.len() && acc[i].0.precedes(&p)
        invariant
            i <= acc.len(),
            m == model_of(acc@),
            k == position_key(p),
            forall|j: int| 0 <= j < i ==> key_less(#[trigger] m[j].0, k),
        decreases acc.len() - i,
    {
        i = i + 1;
    }
    proof {
        lemma_model_add_skip(m, k, t@, i as int);
    }
    let ghost rest = m.skip(i as int);
    if i == acc.len() {
        acc.push((p, String::from_str(t)));
        assert(model_of(acc@) =~= m.take(i as int) + model_add(rest, k, t@));
    } else if acc[i].0.same_place(&p) {
        let q = acc[i].0;
        let mut s = acc[i].1.clone();
        s.append(t);
        acc.set(i, (q, s));
        assert(rest[0] == m[i as int]);
        assert(model_of(acc@) =~= m.take(i as int) + model_add(rest, k, t@));
    } else {
        acc.insert(i, (p, String::from_str(t)));
        assert(rest[0] == m[i as int]);
        assert(model_of(acc@) =~= m.take(i as int) + model_add(rest, k, t@));
    }
}

/// Finds the font that the page declares under `name`.
fn find_font(fonts: &Vec<(String, FontInfo)>, name: &String) -> (r: Option<usize>)
    ensures
        match font_named(fonts@, name@) {
            Some(f) => r matches Some(i) && i < fonts@.len() && fonts@[i as int].1 == f,
            None => r is None,
        },
{
    let mut i: usize = 0;
    assert(fonts@.subrange(0, fonts@.len() as int) =~= fonts@);
    while i < fonts.len()
        invariant
            i <= fonts.len(),
            font_named(fonts@, name@) == font_named(fonts@.subrange(i as int, fonts@.len() as int), name@),
        decreases fonts.len() - i,
    {
        let ghost rest = fonts@.subrange(i as int, fonts@.len() as int);
        assert(rest[0] == fonts@[i as int]);
        assert(rest.drop_first() =~= fonts@.subrange(i + 1, fonts@.len() as int));
        if fonts[i].0 == *name {
            return Some(i);
        }
        i = i + 1;
    }
    None
}

/// Draws one string at `anchor` in `font`.
fn draw(
    acc: &mut Vec<(Position, String)>,
    anchor: Position,
    font: Option<&FontInfo>,
    bytes: &Vec<u8>,
    tables: &EncodingTables,
) -> (r: Result<(), DocumentError>)
    requires
        tables.wf(),
        font matches Some(f) ==> font_wf(*f),
    ensures
        match draw_text(
            crate::decode::option_font(font),
            model_of(old(acc)@),
            bytes@,
            position_key(anchor),
            *tables,
        ) {
            Ok(m) => r is Ok && model_of(final(acc)@) == m,
            Err(e) => r == Err::<(), DocumentError>(e),
        },
{
    match font_decode(font, bytes, tables) {
        Err(e) => Err(e),
        Ok(None) => Ok(()),
        Ok(Some(t)) => {
            add_text(acc, anchor, t.as_str());
            Ok(())
        },
    }
}

proof fn lemma_draw_texts_fail_onwards(
    font: Option<FontInfo>,
    m: TextModel,
    texts: Seq<Vec<u8>>,
    k: (int, int),
    tables: EncodingTables,
    i: nat,
    n: nat,
)
    requires
        draw_texts(font, m, texts, k, tables, i) is Err,
        i <= n,
    ensures
        draw_texts(font, m, texts, k, tables, n) == draw_texts(font, m, texts, k, tables, i),
    decreases n - i,
{
    if i < n {
        lemma_draw_texts_fail_onwards(font, m, texts, k, tables, i, (n - 1) as nat);
    }
}

proof fn lemma_replay_fail_onwards(
    ops: Seq<TextOp>,
    fonts: Seq<(String, FontInfo)>,
    tables: EncodingTables,
    i: nat,
    n: nat,
)
    requires
        replay(ops, fonts, tables, i) is Err,
        i <= n,
    ensures
        replay(ops, fonts, tables, n) == replay(ops, fonts, tables, i),
    decreases n - i,
{
    if i < n {
        lemma_replay_fail_onwards(ops, fonts, tables, i, (n - 1) as nat);
    }
}

proof fn lemma_draw_texts_sorted(
    font: Option<FontInfo>,
    m: TextModel,
    texts: Seq<Vec<u8>>,
    k: (int, int),
    tables: EncodingTables,
    n: nat,
)
    requires
        model_sorted(m),
        draw_texts(font, m, texts, k, tables, n) is Ok,
    ensures
        model_sorted(draw_texts(font, m, texts, k, tables, n)->Ok_0),
    decreases n,
{
    if n > 0 {
        lemma_draw_texts_sorted(font, m, texts, k, tables, (n - 1) as nat);
        let p = draw_texts(font, m, texts, k, tables, (n - 1) as nat)->Ok_0;
        if let Ok(Some(t)) = decoded(font, texts[n - 1]@, tables) {
            lemma_model_add_sorted(p, k, t);
        }
    }
}

/// Every state of the replay holds its text in strictly ascending order of position.
pub proof fn lemma_replay_sorted(ops: Seq<TextOp>, fonts: Seq<(String, FontInfo)>, tables: EncodingTables, n: nat)
    requires
        replay(ops, fonts, tables, n) is Ok,
    ensures
        model_sorted(replay(ops, fonts, tables, n)->Ok_0.2),
    decreases n,
{
    if n > 0 {
        lemma_replay_sorted(ops, fonts, tables, (n - 1) as nat);
        let s = replay(ops, fonts, tables, (n - 1) as nat)->Ok_0;
        match ops[n - 1] {
            TextOp::Draw(bytes) => {
                if let (Some(k), Ok(Some(t))) = (s.0, decoded(s.1, bytes@, tables)) {
                    lemma_model_add_sorted(s.2, k, t);
                }
            },
            TextOp::DrawAdjusted(texts) => {
                if let Some(k) = s.0 {
                    lemma_draw_texts_sorted(s.1, s.2, texts@, k, tables, texts@.len());
                }
            },
            _ => {},
        }
    }
}

/// The page's fonts all address single bytes in their overrides.
pub open spec fn fonts_wf(fonts: Seq<(String, FontInfo)>) -> bool {
    forall|i: int| 0 <= i < fonts.len() ==> font_wf(#[trigger] fonts[i].1)
}

/// Replays a page's instructions and returns the text gathered per position,
/// in reading order. An unknown font, or a code that the active font's direct
/// map lacks, aborts the replay.
pub fn replay_page(ops: &Vec<TextOp>, fonts: &Vec<(String, FontInfo)>, tables: &EncodingTables) -> (r:
    Result<Vec<(Position, String)>, DocumentError>)
    requires
        tables.wf(),
        fonts_wf(fonts@),
    ensures
        match replay(ops@, fonts@, *tables, ops@.len()) {
            Ok(s) => r matches Ok(v) && model_of(v@) == s.2,
            Err(e) => r matches Err(f) && f == e,
        },
        r matches Ok(v) ==> model_sorted(model_of(v@)),
{
    let mut acc: Vec<(Position, String)> = Vec::new();
    let mut transform: Option<Matrix2D> = None;
    let mut font: Option<usize> = None;
    let mut i: usize = 0;
    assert(model_of(acc@) =~= Seq::<((int, int), Seq<char>)>::empty());
    while i < ops.len()
        invariant
            i <= ops.len(),
            tables.wf(),
            fonts_wf(fonts@),
            font matches Some(fi) ==> fi < fonts@.len(),
            replay(ops@, fonts@, *tables, i as nat) matches Ok(s) && s.2 == model_of(acc@) && s.0 == (
                match transform {
                    Some(t) => Some(anchor_key(t)),
                    None => None,
                }) && s.1 == (
                match font {
                    Some(fi) => Some(fonts@[fi as int].1),
                    None => None,
                }),
        decreases ops.len() - i,
    {
        let ghost s = replay(ops@, fonts@, *tables, i as nat)->Ok_0;
        let f: Option<&FontInfo> = match font {
            Some(fi) => Some(&fonts[fi].1),
            None => None,
        };
        assert(crate::decode::option_font(f) == s.1);
        match &ops[i] {
            TextOp::BeginText => {
                let t = Matrix2D::identity();
                transform = Some(t);
                assert(anchor_key(t) == (0int, 0int));
            },
            TextOp::EndText => {
                transform = None;
            },
            TextOp::SetTextMatrix(m) => {
                transform = Some(*m);
            },
            TextOp::SetFont(name) => {
                match find_font(fonts, name) {
                    Some(fi) => {
                        font = Some(fi);
                    },
                    None => {
                        proof {
                            lemma_replay_fail_onwards(ops@, fonts@, *tables, (i + 1) as nat, ops@.len());
                        }
                        return Err(DocumentError::UnknownFont);
                    },
                }
            },
            TextOp::Draw(bytes) => {
                if let Some(t) = &transform {
                    let anchor = t.apply_to_origin().flipped();
                    if let Err(e) = draw(&mut acc, anchor, f, bytes, tables) {
                        proof {
                            lemma_replay_fail_onwards(ops@, fonts@, *tables, (i + 1) as nat, ops@.len());
                        }
                        return Err(e);
                    }
                }
            },
            TextOp::DrawAdjusted(texts) => {
                if let Some(t) = &transform {
                    let anchor = t.apply_to_origin().flipped();
                    let ghost k = anchor_key(*t);
                    let ghost m0 = model_of(acc@);
                    assert(position_key(anchor) == k);
                    let mut j: usize = 0;
                    while j < texts.len()
                        invariant
                            j <= texts.len(),
                            tables.wf(),
                            f matches Some(ff) ==> font_wf(*ff),
                            position_key(anchor) == k,
                            draw_texts(s.1, m0, texts@, k, *tables, j as nat) == Ok::<TextModel, DocumentError>(model_of(acc@)),
                            crate::decode::option_font(f) == s.1,
                            m0 == s.2,
                            i < ops@.len(),
                            replay(ops@, fonts@, *tables, i as nat) == Ok::<ReplayState, DocumentError>(s),
                            ops@[i as int] == TextOp::DrawAdjusted(*texts),
                            s.0 == Some(k),
                        decreases texts.len() - j,
                    {
                        if let Err(e) = draw(&mut acc, anchor, f, &texts[j], tables) {
                            proof {
                                lemma_draw_texts_fail_onwards(s.1, m0, texts@, k, *tables, (j + 1) as nat, texts@.len());
                                lemma_replay_fail_onwards(ops@, fonts@, *tables, (i + 1) as nat, ops@.len());
                            }
                            return Err(e);
                        }
                        j = j + 1;
                    }
                }
            },
            TextOp::Other => {},
        }
        i = i + 1;
    }
    proof {
        lemma_replay_sorted(ops@, fonts@, *tables, ops@.len());
    }
    Ok(acc)
}

/// Joins the gathered text into lines: entries with the same `y` in order of `x`.
pub fn assemble_lines(acc: &Vec<(Position, String)>) -> (r: Vec<String>)
    ensures
        r@.len() == group_lines(model_of(acc@)).len(),
        forall|k: int| 0 <= k < r@.len() ==> (#[trigger] r@[k])@ == group_lines(model_of(acc@))[k].1,
{
    let ghost m = model_of(acc@);
    let mut lines: Vec<String> = Vec::new();
    let mut last_y: i64 = 0;
    let mut i: usize = 0;
    while i < acc.len()
        invariant
            i <= acc.len(),
            m == model_of(acc@),
            lines@.len() == group_lines(m.take(i as int)).len(),
            forall|k: int| 0 <= k < lines@.len() ==> (#[trigger] lines@[k])@ == group_lines(m.take(i as int))[k].1,
            lines@.len() > 0 ==> last_y as int == group_lines(m.take(i as int)).last().0,
        decreases acc.len() - i,
    {
        proof {
            assert(m.take(i + 1).drop_last() =~= m.take(i as int));
            assert(m.take(i + 1).last() == m[i as int]);
        }
        let ghost g = group_lines(m.take(i as int));
        let y = acc[i].0.y.key();
        let n = lines.len();
        if n > 0 && last_y == y {
            let mut s = lines[n - 1].clone();
            s.append(acc[i].1.as_str());
            lines.set(n - 1, s);
        } else {
            lines.push(acc[i].1.clone());
            last_y = y;
        }
        i = i + 1;
        proof {
            let g2 = group_lines(m.take(i as int));
            assert forall|k: int| 0 <= k < lines@.len() implies (#[trigger] lines@[k])@ == g2[k].1 by {
                if k < n {
                    assert(g2[k] == g[k] || k == n - 1);
                }
            }
        }
    }
    assert(m.take(acc@.len() as int) =~= m);
    lines
}

/// The lines of a page in reading order.
pub fn page_lines(ops: &Vec<TextOp>, fonts: &Vec<(String, FontInfo)>, tables: &EncodingTables) -> (r:
    Result<Vec<String>, DocumentError>)
    requires
        tables.wf(),
        fonts_wf(fonts@),
    ensures
        match replay(ops@, fonts@, *tables, ops@.len()) {
            Ok(s) => r matches Ok(v) && v@.len() == group_lines(s.2).len() && forall|k: int|
                0 <= k < v@.len() ==> (#[trigger] v@[k])@ == group_lines(s.2)[k].1,
            Err(e) => r matches Err(f) && f == e,
        },
{
    match replay_page(ops, fonts, tables) {
        Ok(acc) => Ok(assemble_lines(&acc)),
        Err(e) => Err(e),
    }
}

} // verus!
