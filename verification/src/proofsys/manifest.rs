//! Laws of the export format: how manifest lines are cut and read, what the bytes of an
//! array stand for, and which array becomes which weight.
use vstd::prelude::*;
use crate::proofsys::canonical;
use crate::proofsys::export;
use crate::proofsys::export::{ArrayView, ElementType, EntryView};
use crate::proofsys::model::{BlockWeights, ModelWeights};
use crate::proofsys::witness::Config;

verus! {

/// The text holds no separator.
pub open spec fn unbroken(s: Seq<char>) -> bool {
    forall|i: int| 0 <= i < s.len() ==> !export::is_space(#[trigger] s[i])
}

/// A separator cuts a text: its words are those before it and those behind it.
pub proof fn law_words_cut(a: Seq<char>, c: char, b: Seq<char>)
    requires
        export::is_space(c),
    ensures
        export::words(a + seq![c] + b) == export::words(a) + export::words(b),
    decreases b.len(),
{
    let s = a + seq![c] + b;
    if b.len() == 0 {
        assert(s.drop_last() =~= a);
        assert(export::words(a) + export::words(b) =~= export::words(a));
    } else {
        let t = b.drop_last();
        let before = a + seq![c] + t;
        assert(s.drop_last() =~= before);
        assert(s.last() == b.last());
        law_words_cut(a, c, t);
        if b.len() == 1 {
            assert(s[s.len() - 2] == c);
        } else {
            assert(s[s.len() - 2] == b[b.len() - 2]);
            if !export::is_space(b.last()) && !export::is_space(b[b.len() - 2]) {
                lemma_word_open(t);
            }
        }
        assert(export::words(s) =~= export::words(a) + export::words(b));
    }
}

/// A text that ends in no separator ends in a word.
proof fn lemma_word_open(s: Seq<char>)
    requires
        s.len() > 0,
        !export::is_space(s.last()),
    ensures
        export::words(s).len() > 0,
    decreases s.len(),
{
    if s.len() > 1 && !export::is_space(s[s.len() - 2]) {
        lemma_word_open(s.drop_last());
    }
}

/// A text without separators is one word, and one of separators alone has none.
pub proof fn law_word_whole(s: Seq<char>)
    ensures
        s.len() > 0 && unbroken(s) ==> export::words(s) == seq![s],
        (forall|i: int| 0 <= i < s.len() ==> export::is_space(#[trigger] s[i])) ==> export::words(
            s,
        ).len() == 0,
    decreases s.len(),
{
    if s.len() > 0 {
        let t = s.drop_last();
        law_word_whole(t);
        if unbroken(s) {
            assert(!export::is_space(s[s.len() - 1]));
            if s.len() == 1 {
                assert(export::words(t) =~= Seq::<Seq<char>>::empty());
                assert(seq![s.last()] =~= s);
                assert(export::words(s) =~= seq![s]);
            } else {
                assert(unbroken(t));
                assert(!export::is_space(s[s.len() - 2]));
                assert(export::words(s) =~= seq![t.push(s.last())]);
                assert(t.push(s.last()) =~= s);
            }
        }
        if forall|i: int| 0 <= i < s.len() ==> export::is_space(#[trigger] s[i]) {
            assert(export::is_space(s[s.len() - 1]));
            assert forall|i: int| 0 <= i < t.len() implies export::is_space(#[trigger] t[i]) by {
                assert(export::is_space(s[i]));
            }
        }
    }
}

/// A line feed ends a line: the pieces of a text are those up to it and those behind it.
pub proof fn law_lines_cut(a: Seq<char>, b: Seq<char>)
    ensures
        export::pieces(a.push('\n') + b) == export::pieces(a.push('\n')) + export::pieces(b),
    decreases b.len(),
{
    let s = a.push('\n') + b;
    if b.len() == 0 {
        assert(s =~= a.push('\n'));
        assert(export::pieces(s) + export::pieces(b) =~= export::pieces(s));
    } else {
        let t = b.drop_last();
        assert(s.drop_last() =~= a.push('\n') + t);
        assert(s.last() == b.last());
        law_lines_cut(a, t);
        if b.len() == 1 {
            assert(s[s.len() - 2] == '\n');
        } else {
            assert(s[s.len() - 2] == b[b.len() - 2]);
            lemma_piece_open(t);
        }
        assert(export::pieces(s) =~= export::pieces(a.push('\n')) + export::pieces(b));
    }
}

proof fn lemma_piece_open(s: Seq<char>)
    requires
        s.len() > 0,
    ensures
        export::pieces(s).len() > 0,
    decreases s.len(),
{
    if s.len() > 1 {
        lemma_piece_open(s.drop_last());
    }
}

/// A text without line feeds, or with one at its end alone, is one piece, and its line
/// ending, a line feed with or without a carriage return, is stripped.
pub proof fn law_line_whole(s: Seq<char>)
    requires
        forall|i: int| 0 <= i < s.len() ==> #[trigger] s[i] != '\n',
    ensures
        s.len() > 0 ==> export::pieces(s) == seq![s],
        export::pieces(s.push('\n')) == seq![s.push('\n')],
        export::stripped(s) == s,
        export::stripped(s.push('\r').push('\n')) == s,
        s.len() > 0 && s.last() != '\r' ==> export::stripped(s.push('\n')) == s,
    decreases s.len(),
{
    let t = s.push('\n');
    if s.len() > 0 {
        let u = s.drop_last();
        assert forall|i: int| 0 <= i < u.len() implies #[trigger] u[i] != '\n' by {
            assert(s[i] == u[i]);
        }
        law_line_whole(u);
        if s.len() == 1 {
            assert(export::pieces(u) =~= Seq::<Seq<char>>::empty());
            assert(seq![s.last()] =~= s);
            assert(export::pieces(s) =~= seq![s]);
        } else {
            assert(s[s.len() - 2] != '\n');
            assert(export::pieces(s) =~= seq![u.push(s.last())]);
            assert(u.push(s.last()) =~= s);
        }
        assert(t.drop_last() =~= s);
        assert(t[t.len() - 2] == s[s.len() - 1]);
        assert(export::pieces(t) =~= seq![t]);
        assert(s[s.len() - 1] != '\n');
    } else {
        assert(t.drop_last() =~= s);
        assert(export::pieces(s) =~= Seq::<Seq<char>>::empty());
        assert(seq!['\n'] =~= t);
        assert(export::pieces(t) =~= seq![t]);
    }
    let r = s.push('\r').push('\n');
    assert(r[r.len() - 2] == '\r');
    assert(r.take(r.len() - 2) =~= s);
}

proof fn lemma_digit(n: nat)
    requires
        n < 10,
    ensures
        canonical::digit(n).len() == 1,
        export::is_digit(canonical::digit(n)[0]),
        export::digit_of(canonical::digit(n)[0]) == n,
        canonical::digit(n)[0] != '+',
        !export::is_space(canonical::digit(n)[0]),
{
    reveal_strlit("0");
    reveal_strlit("1");
    reveal_strlit("2");
    reveal_strlit("3");
    reveal_strlit("4");
    reveal_strlit("5");
    reveal_strlit("6");
    reveal_strlit("7");
    reveal_strlit("8");
    reveal_strlit("9");
}

proof fn lemma_decimal_digits(n: nat)
    ensures
        ({
            let d = canonical::decimal(n);
            &&& d.len() > 0
            &&& export::digits_value(d) == n
            &&& forall|i: int| 0 <= i < d.len() ==> export::is_digit(#[trigger] d[i])
            &&& d[0] != '+'
            &&& unbroken(d)
        }),
    decreases n,
{
    let d = canonical::decimal(n);
    if n < 10 {
        lemma_digit(n);
        assert(d.drop_last() =~= Seq::<char>::empty());
        assert(export::digits_value(d.drop_last()) == 0);
    } else {
        lemma_decimal_digits(n / 10);
        lemma_digit(n % 10);
        let h = canonical::decimal(n / 10);
        assert(d.drop_last() =~= h);
        assert(d.last() == canonical::digit(n % 10)[0]);
        assert forall|i: int| 0 <= i < d.len() implies export::is_digit(#[trigger] d[i]) by {
            if i < h.len() {
                assert(d[i] == h[i]);
            }
        }
        assert forall|i: int| 0 <= i < d.len() implies !export::is_space(#[trigger] d[i]) by {
            if i < h.len() {
                assert(d[i] == h[i]);
            }
        }
        assert(d[0] == h[0]);
    }
}

/// A number that is written in decimal digits is read back, with or without a plus sign.
pub proof fn law_number_read_back(n: usize)
    ensures
        export::number_of(canonical::decimal(n as nat)) == Some(n as nat),
        export::number_of(seq!['+'] + canonical::decimal(n as nat)) == Some(n as nat),
{
    let d = canonical::decimal(n as nat);
    lemma_decimal_digits(n as nat);
    assert((seq!['+'] + d).skip(1) =~= d);
}

/// A line of five words, a name, an element type, two numbers and a file name, is read
/// back as what they say.
pub proof fn law_line_read_back(
    name: Seq<char>,
    wide: bool,
    d0: usize,
    d1: usize,
    file: Seq<char>,
    gap: char,
)
    requires
        name.len() > 0,
        unbroken(name),
        file.len() > 0,
        unbroken(file),
        export::is_space(gap),
    ensures
        ({
            let kind = if wide {
                "int64"@
            } else {
                "int32"@
            };
            export::entry_of(
                name + seq![gap] + (kind + seq![gap] + (canonical::decimal(d0 as nat) + seq![gap]
                    + (canonical::decimal(d1 as nat) + seq![gap] + file))),
            ) == Ok::<EntryView, export::ErrorView>(
                EntryView {
                    name,
                    element: if wide {
                        ElementType::Int64
                    } else {
                        ElementType::Int32
                    },
                    d0: d0 as nat,
                    d1: d1 as nat,
                    file,
                },
            )
        }),
{
    reveal_strlit("int32");
    reveal_strlit("int64");
    let kind = if wide {
        "int64"@
    } else {
        "int32"@
    };
    assert(unbroken(kind));
    assert("int32"@[3] != "int64"@[3]);
    let (a, b) = (canonical::decimal(d0 as nat), canonical::decimal(d1 as nat));
    lemma_decimal_digits(d0 as nat);
    lemma_decimal_digits(d1 as nat);
    law_number_read_back(d0);
    law_number_read_back(d1);
    let t3 = b + seq![gap] + file;
    let t2 = a + seq![gap] + t3;
    let t1 = kind + seq![gap] + t2;
    law_words_cut(name, gap, t1);
    law_words_cut(kind, gap, t2);
    law_words_cut(a, gap, t3);
    law_words_cut(b, gap, file);
    law_word_whole(name);
    law_word_whole(kind);
    law_word_whole(a);
    law_word_whole(b);
    law_word_whole(file);
    let w = export::words(name + seq![gap] + t1);
    assert(w =~= seq![name, kind, a, b, file]);
}

/// What the bytes of an element stand for: the number in two's complement, with the least
/// significant byte first.
pub proof fn law_elements(b: Seq<u8>, i: int)
    ensures
        0 <= i < b.len() / 4 ==> ({
            let v = export::element_at(b, ElementType::Int32, i);
            let u = b[4 * i] + 0x100 * b[4 * i + 1] + 0x1_0000 * b[4 * i + 2] + 0x100_0000 * b[4
                * i + 3];
            &&& -0x8000_0000 <= v < 0x8000_0000
            &&& v == u || v == u - 0x1_0000_0000
        }),
        0 <= i < b.len() / 8 ==> ({
            let v = export::element_at(b, ElementType::Int64, i);
            let u = b[8 * i] + 0x100 * b[8 * i + 1] + 0x1_0000 * b[8 * i + 2] + 0x100_0000 * b[8
                * i + 3] + 0x1_0000_0000 * b[8 * i + 4] + 0x100_0000_0000 * b[8 * i + 5]
                + 0x1_0000_0000_0000 * b[8 * i + 6] + 0x100_0000_0000_0000 * b[8 * i + 7];
            &&& -0x8000_0000_0000_0000 <= v < 0x8000_0000_0000_0000
            &&& v == u || v == u - 0x1_0000_0000_0000_0000
        }),
{
    if 0 <= i < b.len() / 4 {
        export::lemma_four_bytes(b.subrange(4 * i, 4 * (i + 1)));
    }
    if 0 <= i < b.len() / 8 {
        export::lemma_eight_bytes(b.subrange(8 * i, 8 * (i + 1)));
    }
}

/// The values of the array `part` of block `i`.
pub open spec fn block_values(m: Map<Seq<char>, ArrayView>, i: nat, part: Seq<char>) -> Seq<i64> {
    m["blk"@ + canonical::decimal(i) + "_"@ + part].values
}

/// Every weight of a loaded block is the array of its own name.
pub proof fn law_block_named(
    b: BlockWeights,
    m: Map<Seq<char>, ArrayView>,
    config: Config,
    i: nat,
)
    requires
        export::block_loaded(b, m, config, i),
    ensures
        b.ln_1_g@ == block_values(m, i, "ln_1_g"@),
        b.ln_1_b@ == block_values(m, i, "ln_1_b"@),
        b.attn_w.values() == block_values(m, i, "attn_w"@),
        b.attn_b@ == block_values(m, i, "attn_b"@),
        b.attn_proj_w.values() == block_values(m, i, "attn_proj_w"@),
        b.attn_proj_b@ == block_values(m, i, "attn_proj_b"@),
        b.ln_2_g@ == block_values(m, i, "ln_2_g"@),
        b.ln_2_b@ == block_values(m, i, "ln_2_b"@),
        b.fc_w.values() == block_values(m, i, "fc_w"@),
        b.fc_b@ == block_values(m, i, "fc_b"@),
        b.fproj_w.values() == block_values(m, i, "fproj_w"@),
        b.fproj_b@ == block_values(m, i, "fproj_b"@),
        b.attn_w.height() == config.d_model && b.attn_w.width() == 3 * config.d_model,
        b.attn_proj_w.height() == config.d_model && b.attn_proj_w.width() == config.d_model,
        b.fc_w.height() == config.d_model && b.fc_w.width() == config.mlp_hidden,
        b.fproj_w.height() == config.mlp_hidden && b.fproj_w.width() == config.d_model,
{
}

/// Every weight outside the blocks is the array of its own name, there is a block for every
/// layer, and without a position embedding all positions embed as zero.
pub proof fn law_weights_named(w: ModelWeights, m: Map<Seq<char>, ArrayView>, config: Config)
    requires
        export::weights_loaded(w, m, config),
    ensures
        w.wte.values() == m["wte"@].values,
        w.wte.height() == config.vocab && w.wte.width() == config.d_model,
        w.has_wpe ==> w.wpe.values() == m["wpe"@].values,
        w.wpe.height() == 1024 && w.wpe.width() == config.d_model,
        !m.contains_key("wpe"@) ==> forall|k: int|
            0 <= k < w.wpe.grid().data.len() ==> #[trigger] w.wpe.grid().data[k] == 0,
        w.ln_f_g@ == m["ln_f_g"@].values,
        w.ln_f_b@ == m["ln_f_b"@].values,
        w.exp_lut@ == m["exp_lut"@].values,
        w.gelu_lut@ == m["gelu_lut"@].values,
        w.blocks@.len() == config.n_layer,
        forall|i: int|
            0 <= i < config.n_layer ==> export::block_loaded(
                #[trigger] w.blocks@[i],
                m,
                config,
                i as nat,
            ),
{
    assert(w.wpe.grid().rows == w.wpe.height() && w.wpe.grid().cols == w.wpe.width());
}

} // verus!
