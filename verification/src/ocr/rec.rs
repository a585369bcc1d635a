//! Text recognition: the vocabulary of the model, and what its output says.

use crate::chunks::chunks;
use crate::float32::Float32;
use crate::text::{lines, lines_of, views};
use vstd::prelude::*;

verus! {

/// The height, in pixels, of a line of text as the model takes it.
pub const REC_HEIGHT: u32 = 48;

/// The greatest width of a line; longer ones are squeezed.
pub const REC_MAX_WIDTH: u32 = 320;

/// Lines that go through the model at once.
pub const REC_BATCH: usize = 16;

/// The texts of the classes: nothing for the blank, one for each line of the
/// model's `character` metadata, and a space.
pub open spec fn vocab_of(character: Seq<char>) -> Seq<Seq<char>> {
    seq![Seq::<char>::empty()] + lines_of(character) + seq![" "@]
}

/// The texts of the classes, from the model's `character` metadata.
pub fn build_vocab(character: &str) -> (r: Vec<String>)
    ensures
        views(r@) == vocab_of(character@),
{
    let mut vocab: Vec<String> = Vec::new();
    vocab.push(String::new());
    let rows = lines(character);
    let mut i: usize = 0;
    assert(views(vocab@) =~= seq![Seq::<char>::empty()] + views(rows@).take(0));
    while i < rows.len()
        invariant
            i <= rows@.len(),
            views(vocab@) == seq![Seq::<char>::empty()] + views(rows@).take(i as int),
        decreases rows@.len() - i,
    {
        let ghost before = views(vocab@);
        vocab.push(rows[i].clone());
        assert(views(vocab@) =~= before.push(views(rows@)[i as int]));
        assert(views(vocab@) =~= seq![Seq::<char>::empty()] + views(rows@).take(i + 1));
        i = i + 1;
    }
    assert(views(rows@).take(i as int) =~= views(rows@));
    vocab.push(" ".to_owned());
    assert(views(vocab@) =~= vocab_of(character@));
    vocab
}

/// A line as it was read: its text, and how likely each character of it was. Its
/// score is the mean of these.
#[derive(Debug)]
pub struct CtcLine {
    pub text: String,
    pub probs: Vec<Float32>,
}

/// The likeliest of the first `n` classes that begin at `at`, with its
/// probability: the last one, should several be equally likely.
pub open spec fn best_class(probs: Seq<Float32>, at: int, n: int) -> (int, Float32)
    decreases n,
{
    if n <= 0 {
        (0, Float32 { bits: 0 })
    } else if n == 1 || probs[at + n - 1].total() >= best_class(probs, at, n - 1).1.total() {
        (n - 1, probs[at + n - 1])
    } else {
        best_class(probs, at, n - 1)
    }
}

/// What has been read after some steps: the text, the probabilities of its
/// characters, and the class of the last step.
pub open spec fn read_steps(
    vocab: Seq<Seq<char>>,
    probs: Seq<Float32>,
    n_class: int,
    steps: int,
) -> (Seq<char>, Seq<Float32>, int)
    decreases steps,
{
    if steps <= 0 {
        (Seq::empty(), Seq::empty(), 0)
    } else {
        let (text, kept, prev) = read_steps(vocab, probs, n_class, steps - 1);
        let (class, p) = best_class(probs, (steps - 1) * n_class, n_class);
        if class != 0 && class != prev && class < vocab.len() {
            (text + vocab[class], kept.push(p), class)
        } else {
            (text, kept, class)
        }
    }
}

fn pick_class(probs: &[Float32], at: usize, n: usize) -> (r: (usize, Float32))
    requires
        at + n <= probs@.len(),
    ensures
        (r.0 as int, r.1) == best_class(probs@, at as int, n as int),
{
    let mut best: usize = 0;
    let mut p: Float32 = Float32 { bits: 0 };
    let mut i: usize = 0;
    assert(probs.len() == probs@.len());
    while i < n
        invariant
            i <= n,
            at + n <= probs.len(),
            (best as int, p) == best_class(probs@, at as int, i as int),
        decreases n - i,
    {
        let x: Float32 = probs[at + i];
        if i == 0 || x.total_key() >= p.total_key() {
            best = i;
            p = x;
        }
        i = i + 1;
    }
    (best, p)
}

/// Reads one line from the probabilities of the classes at each step: the
/// likeliest class of each step, without repetitions and without blanks.
pub fn ctc_greedy(vocab: &Vec<String>, probs: &[Float32], t_len: usize, n_class: usize) -> (r:
    CtcLine)
    requires
        t_len * n_class <= probs@.len(),
    ensures
        r.text@ == read_steps(views(vocab@), probs@, n_class as int, t_len as int).0,
        r.probs@ == read_steps(views(vocab@), probs@, n_class as int, t_len as int).1,
{
    let mut text = String::new();
    let mut kept: Vec<Float32> = Vec::new();
    let mut prev: usize = 0;
    let mut at: usize = 0;
    let mut t: usize = 0;
    assert(probs.len() == probs@.len());
    assert(0 * n_class == 0) by (nonlinear_arith);
    while t < t_len
        invariant
            t <= t_len,
            at == t * n_class,
            t_len * n_class <= probs.len(),
            (text@, kept@, prev as int) == read_steps(
                views(vocab@),
                probs@,
                n_class as int,
                t as int,
            ),
        decreases t_len - t,
    {
        assert((t + 1) * n_class == t * n_class + n_class && (t + 1) * n_class <= t_len * n_class)
            by (nonlinear_arith)
            requires
                t + 1 <= t_len,
                n_class >= 0,
        ;
        let (class, p) = pick_class(probs, at, n_class);
        if class != 0 && class != prev && class < vocab.len() {
            assert(views(vocab@)[class as int] == vocab@[class as int]@);
            text.append(vocab[class].as_str());
            kept.push(p);
        }
        prev = class;
        at = at + n_class;
        t = t + 1;
    }
    CtcLine { text, probs: kept }
}

/// Reads the lines of a batch, `n` of them, from the probabilities of the classes
/// at each step of each line.
pub fn decode_batch(
    vocab: &Vec<String>,
    probs: &[Float32],
    n: usize,
    t_len: usize,
    n_class: usize,
) -> (r: Vec<CtcLine>)
    requires
        n * (t_len * n_class) <= probs@.len(),
    ensures
        r@.len() == n,
        forall|i: int|
            0 <= i < n ==> {
                let line = probs@.subrange(
                    i * (t_len * n_class),
                    i * (t_len * n_class) + t_len * n_class,
                );
                let out = read_steps(views(vocab@), line, n_class as int, t_len as int);
                (#[trigger] r@[i]).text@ == out.0 && r@[i].probs@ == out.1
            },
{
    let mut out: Vec<CtcLine> = Vec::new();
    if n == 0 {
        return out;
    }
    let ghost len = t_len * n_class;
    assert(len <= n * len) by (nonlinear_arith)
        requires
            n >= 1,
            len >= 0,
    ;
    assert(len >= 0) by (nonlinear_arith)
        requires
            len == t_len * n_class,
            t_len >= 0,
            n_class >= 0,
    ;
    assert(probs.len() == probs@.len());
    let size: usize = t_len * n_class;
    let mut i: usize = 0;
    let mut at: usize = 0;
    assert(0 * size == 0) by (nonlinear_arith);
    while i < n
        invariant
            i <= n,
            size == t_len * n_class,
            at == i * size,
            n * size <= probs.len(),
            out@.len() == i,
            forall|j: int|
                0 <= j < i ==> {
                    let line = probs@.subrange(
                        j * (t_len * n_class),
                        j * (t_len * n_class) + t_len * n_class,
                    );
                    let o = read_steps(views(vocab@), line, n_class as int, t_len as int);
                    (#[trigger] out@[j]).text@ == o.0 && out@[j].probs@ == o.1
                },
        decreases n - i,
    {
        assert((i + 1) * size == i * size + size && (i + 1) * size <= n * size) by (nonlinear_arith)
            requires
                i + 1 <= n,
                size >= 0,
        ;
        let line = vstd::slice::slice_subrange(probs, at, at + size);
        out.push(ctc_greedy(vocab, line, t_len, n_class));
        at = at + size;
        i = i + 1;
    }
    out
}

/// A blank, and a class that repeats the one before, add nothing to the text.
pub proof fn blanks_and_repeats_add_nothing(
    vocab: Seq<Seq<char>>,
    probs: Seq<Float32>,
    n_class: int,
    steps: int,
)
    requires
        steps > 0,
        ({
            let class = best_class(probs, (steps - 1) * n_class, n_class).0;
            class == 0 || class == read_steps(vocab, probs, n_class, steps - 1).2
        }),
    ensures
        read_steps(vocab, probs, n_class, steps).0 == read_steps(
            vocab,
            probs,
            n_class,
            steps - 1,
        ).0,
{
}

/// Each character that was read has one probability: the text is empty exactly
/// where there is none, unless a class of the vocabulary has no text.
pub proof fn one_probability_for_each_class(
    vocab: Seq<Seq<char>>,
    probs: Seq<Float32>,
    n_class: int,
    steps: int,
)
    requires
        forall|i: int| 0 < i < vocab.len() ==> (#[trigger] vocab[i]).len() == 1,
        n_class >= 0,
    ensures
        read_steps(vocab, probs, n_class, steps).0.len() == read_steps(
            vocab,
            probs,
            n_class,
            steps,
        ).1.len(),
    decreases steps,
{
    if steps > 0 {
        one_probability_for_each_class(vocab, probs, n_class, steps - 1);
        lemma_class_range(probs, (steps - 1) * n_class, n_class);
    }
}

proof fn lemma_class_range(probs: Seq<Float32>, at: int, n: int)
    ensures
        best_class(probs, at, n).0 >= 0,
    decreases n,
{
    if n > 0 {
        lemma_class_range(probs, at, n - 1);
    }
}

/// How many lines go through the model at once: the ranges of the batches.
pub fn batches(n: usize) -> (r: Vec<(usize, usize)>)
    ensures
        crate::chunks::range_view(r@) == crate::chunks::chunk_ranges(n as int, REC_BATCH as int),
{
    chunks(n, REC_BATCH)
}

// ── Laws of reading ─────────────────────────────────────────────────────────

/// Whether a class is the likeliest of a step: none is likelier, and none behind it is
/// as likely.
pub open spec fn is_likeliest(probs: Seq<Float32>, at: int, n_class: int, class: int) -> bool {
    &&& 0 <= class < n_class
    &&& forall|c: int|
        0 <= c < n_class ==> probs[at + class].total() >= (#[trigger] probs[at + c]).total()
    &&& forall|c: int|
        class < c < n_class ==> probs[at + class].total() > (#[trigger] probs[at + c]).total()
}

/// Whether the class of a step is read: it is no blank, it has a text, and it is not
/// that of the step before.
pub open spec fn is_read(classes: Seq<int>, n_vocab: int, t: int) -> bool {
    classes[t] != 0 && classes[t] < n_vocab && (t == 0 || classes[t] != classes[t - 1])
}

proof fn lemma_likeliest(probs: Seq<Float32>, at: int, n: int)
    requires
        n > 0,
    ensures
        is_likeliest(probs, at, n, best_class(probs, at, n).0),
        best_class(probs, at, n).1 == probs[at + best_class(probs, at, n).0],
    decreases n,
{
    if n > 1 {
        lemma_likeliest(probs, at, n - 1);
        let before = best_class(probs, at, n - 1).0;
        let class = best_class(probs, at, n).0;
        assert forall|c: int| 0 <= c < n implies probs[at + class].total() >= (
        #[trigger] probs[at + c]).total() by {
            if c < n - 1 {
                assert(probs[at + before].total() >= probs[at + c].total());
            }
        }
        assert forall|c: int| class < c < n implies probs[at + class].total() > (
        #[trigger] probs[at + c]).total() by {
            if c < n - 1 {
                assert(probs[at + before].total() > probs[at + c].total());
            }
        }
    }
}

proof fn lemma_read(vocab: Seq<Seq<char>>, probs: Seq<Float32>, n_class: int, steps: int) -> (r: (
    Seq<int>,
    Seq<int>,
))
    requires
        n_class > 0,
        steps >= 0,
    ensures
        r.0.len() == steps,
        forall|t: int|
            0 <= t < steps ==> is_likeliest(probs, t * n_class, n_class, #[trigger] r.0[t]),
        steps > 0 ==> r.0.last() == read_steps(vocab, probs, n_class, steps).2,
        steps == 0 ==> read_steps(vocab, probs, n_class, steps).2 == 0,
        forall|i: int|
            0 <= i < r.1.len() ==> 0 <= #[trigger] r.1[i] < steps && is_read(
                r.0,
                vocab.len() as int,
                r.1[i],
            ),
        forall|i: int, j: int| 0 <= i < j < r.1.len() ==> #[trigger] r.1[i] < #[trigger] r.1[j],
        forall|t: int|
            0 <= t < steps && #[trigger] is_read(r.0, vocab.len() as int, t) ==> r.1.contains(t),
        read_steps(vocab, probs, n_class, steps).0 == Seq::new(
            r.1.len(),
            |i: int| vocab[r.0[r.1[i]]],
        ).flatten(),
        read_steps(vocab, probs, n_class, steps).1 == Seq::new(
            r.1.len(),
            |i: int| probs[r.1[i] * n_class + r.0[r.1[i]]],
        ),
    decreases steps,
{
    if steps == 0 {
        assert(Seq::<Seq<char>>::new(0, |i: int| Seq::empty()) =~= Seq::empty());
        let none: Seq<int> = Seq::empty();
        assert(Seq::new(none.len(), |i: int| vocab[none[none[i]]]) =~= Seq::<Seq<char>>::empty());
        assert(Seq::new(none.len(), |i: int| probs[none[i] * n_class + none[none[i]]])
            =~= Seq::<Float32>::empty());
        (none, none)
    } else {
        let (before, kept) = lemma_read(vocab, probs, n_class, steps - 1);
        lemma_likeliest(probs, (steps - 1) * n_class, n_class);
        let class = best_class(probs, (steps - 1) * n_class, n_class).0;
        let classes = before.push(class);
        let v = vocab.len() as int;
        assert forall|t: int| 0 <= t < steps implies is_likeliest(
            probs,
            t * n_class,
            n_class,
            #[trigger] classes[t],
        ) by {
            if t < steps - 1 {
                assert(classes[t] == before[t]);
            }
        }
        assert forall|t: int| 0 <= t < steps - 1 implies is_read(before, v, t) == #[trigger] is_read(
            classes,
            v,
            t,
        ) by {
        }
        let texts = Seq::new(kept.len(), |i: int| vocab[before[kept[i]]]);
        let likely = Seq::new(kept.len(), |i: int| probs[kept[i] * n_class + before[kept[i]]]);
        if is_read(classes, v, steps - 1) {
            let more = kept.push(steps - 1);
            assert(Seq::new(more.len(), |i: int| vocab[classes[more[i]]]) =~= texts.push(
                vocab[class],
            ));
            texts.lemma_flatten_push(vocab[class]);
            assert(Seq::new(more.len(), |i: int| probs[more[i] * n_class + classes[more[i]]])
                =~= likely.push(probs[(steps - 1) * n_class + class]));
            assert forall|t: int| 0 <= t < steps && #[trigger] is_read(classes, v, t) implies
                more.contains(t) by {
                if t < steps - 1 {
                    assert(is_read(before, v, t));
                    let i = choose|i: int| 0 <= i < kept.len() && kept[i] == t;
                    assert(more[i] == t);
                } else {
                    assert(more[kept.len() as int] == t);
                }
            }
            (classes, more)
        } else {
            assert(Seq::new(kept.len(), |i: int| vocab[classes[kept[i]]]) =~= texts);
            assert(Seq::new(kept.len(), |i: int| probs[kept[i] * n_class + classes[kept[i]]])
                =~= likely);
            assert forall|t: int| 0 <= t < steps && #[trigger] is_read(classes, v, t) implies
                kept.contains(t) by {
                assert(is_read(before, v, t));
            }
            (classes, kept)
        }
    }
}

/// A line is what its likeliest classes say: with `r.0` the likeliest class of each
/// step and `r.1` the steps whose class is no blank and differs from that of the step
/// before, in order, the text is that of these classes one behind the other, and
/// the probabilities are theirs.
pub proof fn lines_are_their_likeliest_classes(
    vocab: &Vec<String>,
    probs: &[Float32],
    t_len: usize,
    n_class: usize,
    line: CtcLine,
) -> (r: (Seq<int>, Seq<int>))
    requires
        n_class > 0,
        call_ensures(ctc_greedy, (vocab, probs, t_len, n_class), line),
    ensures
        r.0.len() == t_len,
        forall|t: int|
            0 <= t < t_len ==> is_likeliest(
                probs@,
                t * n_class,
                n_class as int,
                #[trigger] r.0[t],
            ),
        forall|i: int|
            0 <= i < r.1.len() ==> 0 <= #[trigger] r.1[i] < t_len && is_read(
                r.0,
                vocab@.len() as int,
                r.1[i],
            ),
        forall|i: int, j: int| 0 <= i < j < r.1.len() ==> #[trigger] r.1[i] < #[trigger] r.1[j],
        forall|t: int|
            0 <= t < t_len && #[trigger] is_read(r.0, vocab@.len() as int, t) ==> r.1.contains(t),
        line.text@ == Seq::new(r.1.len(), |i: int| vocab@[r.0[r.1[i]]]@).flatten(),
        line.probs@ == Seq::new(r.1.len(), |i: int| probs@[r.1[i] * n_class + r.0[r.1[i]]]),
{
    let r = lemma_read(views(vocab@), probs@, n_class as int, t_len as int);
    assert(views(vocab@).len() == vocab@.len());
    assert forall|i: int| 0 <= i < r.1.len() implies is_read(
        r.0,
        vocab@.len() as int,
        #[trigger] r.1[i],
    ) by {
    }
    assert forall|t: int| 0 <= t < t_len implies is_likeliest(
        probs@,
        t * n_class,
        n_class as int,
        #[trigger] r.0[t],
    ) by {
    }
    assert(Seq::new(r.1.len(), |i: int| vocab@[r.0[r.1[i]]]@) =~= Seq::new(
        r.1.len(),
        |i: int| views(vocab@)[r.0[r.1[i]]],
    )) by {
        assert forall|i: int| 0 <= i < r.1.len() implies vocab@[r.0[#[trigger] r.1[i]]]@ == views(
            vocab@,
        )[r.0[r.1[i]]] by {
            assert(is_read(r.0, vocab@.len() as int, r.1[i]));
            assert(is_likeliest(probs@, r.1[i] * n_class, n_class as int, r.0[r.1[i]]));
        }
    }
    r
}

/// A batch is read line by line: each line is what would be read from its own part of
/// the probabilities alone.
pub proof fn batches_are_read_line_by_line(
    vocab: &Vec<String>,
    probs: &[Float32],
    n: usize,
    t_len: usize,
    n_class: usize,
    r: Vec<CtcLine>,
    i: int,
    part: &[Float32],
    line: CtcLine,
)
    requires
        n * (t_len * n_class) <= probs@.len(),
        call_ensures(decode_batch, (vocab, probs, n, t_len, n_class), r),
        0 <= i < n,
        part@.len() == t_len * n_class,
        forall|k: int|
            0 <= k < part@.len() ==> #[trigger] part@[k] == probs@[i * (t_len * n_class) + k],
        call_ensures(ctc_greedy, (vocab, part, t_len, n_class), line),
    ensures
        r@.len() == n,
        r@[i].text@ == line.text@,
        r@[i].probs@ == line.probs@,
{
    let size = t_len * n_class;
    assert(0 <= i * size && i * size + size <= n * size) by (nonlinear_arith)
        requires
            0 <= i < n,
            size >= 0,
    ;
    assert(size >= 0) by (nonlinear_arith)
        requires
            size == t_len * n_class,
            t_len >= 0,
            n_class >= 0,
    ;
    assert(part@ =~= probs@.subrange(i * size, i * size + size));
}

/// The first class is the blank, which has no text, the last is a space, and those
/// between are the lines of the metadata in order.
pub proof fn vocabularies_begin_with_the_blank(
    character: &str,
    r: Vec<String>,
    read: Vec<String>,
)
    requires
        call_ensures(build_vocab, (character,), r),
        call_ensures(lines, (character,), read),
    ensures
        r@.len() == read@.len() + 2,
        r@[0]@.len() == 0,
        r@.last()@ == seq![' '],
        forall|i: int| 0 <= i < read@.len() ==> (#[trigger] r@[i + 1])@ == read@[i]@,
{
    reveal_strlit(" ");
    let v = views(r@);
    assert(v.len() == r@.len() && views(read@).len() == read@.len());
    assert(v[0] == r@[0]@);
    assert(" "@ =~= seq![' ']);
    assert(v[r@.len() - 1] == r@[r@.len() - 1]@);
    assert forall|i: int| 0 <= i < read@.len() implies (#[trigger] r@[i + 1])@ == read@[i]@ by {
        assert(v[i + 1] == views(read@)[i]);
    }
}

/// The lines go through the model in order, sixteen at a time.
pub proof fn lines_go_sixteen_at_a_time(n: usize, r: Vec<(usize, usize)>)
    requires
        call_ensures(batches, (n,), r),
    ensures
        n == 0 <==> r@.len() == 0,
        r@.len() > 0 ==> r@[0].0 == 0 && r@.last().1 == n && r@.last().0 < n && n - r@.last().0
            <= 16,
        forall|i: int|
            0 <= i < r@.len() - 1 ==> (#[trigger] r@[i]).1 == r@[i].0 + 16 && r@[i + 1].0 == r@[i].1,
{
    crate::chunks::lemma_chunks(n, REC_BATCH, r@);
}

} // verus!
