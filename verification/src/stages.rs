//! The pipeline stage component: its commands, the vehicle data it writes,
//! and how it normalizes and validates that data.
use vstd::prelude::*;

use crate::text::{
    lemma_split_join, lemma_split_on_pieces, lemma_trimmed_is_trim, trim_of,
    decode_utf8, utf8_error_text, decimal, is_white, join_with, lemma_join_step, lines_of, parse_u32, parsed_u32, split_on, str_eq, str_lines,
    str_split, str_split_once, str_trim, trimmed, u32_to_decimal, usize_to_decimal,
};
use vstd::string::StrSliceExecFns;

use crate::guests::{pairs, reply1, reply2, TaskReply};

verus! {

/// The index of the first `c` in `s`, if any.
pub open spec fn find_char(s: Seq<char>, c: char) -> Option<nat>
    decreases s.len(),
{
    if s.len() == 0 {
        None
    } else if s[0] == c {
        Some(0)
    } else {
        match find_char(s.skip(1), c) {
            Some(i) => Some(i + 1),
            None => None,
        }
    }
}

/// `s` cut at the first `n - 1` occurrences of `c` (as `str::splitn` does).
pub open spec fn splitn(s: Seq<char>, c: char, n: nat) -> Seq<Seq<char>>
    decreases n,
{
    if n <= 1 {
        seq![s]
    } else {
        match find_char(s, c) {
            None => seq![s],
            Some(i) => seq![s.take(i as int)] + splitn(s.skip(i as int + 1), c, (n - 1) as nat),
        }
    }
}

proof fn lemma_find_first(a: Seq<char>, b: Seq<char>, c: char)
    requires
        !a.contains(c),
    ensures
        find_char(a + seq![c] + b, c) == Some(a.len()),
    decreases a.len(),
{
    let s = a + seq![c] + b;
    if a.len() > 0 {
        assert(a[0] != c) by {
            assert(a.contains(a[0]));
        }
        assert(s.skip(1) =~= a.skip(1) + seq![c] + b);
        assert forall|x: char| a.skip(1).contains(x) implies a.contains(x) by {
            let k = choose|k: int| 0 <= k < a.skip(1).len() && a.skip(1)[k] == x;
            assert(a[k + 1] == x);
        }
        lemma_find_first(a.skip(1), b, c);
    }
}

proof fn lemma_find_none(s: Seq<char>, c: char)
    requires
        !s.contains(c),
    ensures
        find_char(s, c) is None,
    decreases s.len(),
{
    if s.len() > 0 {
        assert(s.contains(s[0]));
        assert forall|x: char| s.skip(1).contains(x) implies s.contains(x) by {
            let k = choose|k: int| 0 <= k < s.skip(1).len() && s.skip(1)[k] == x;
            assert(s[k + 1] == x);
        }
        lemma_find_none(s.skip(1), c);
    }
}

proof fn lemma_find_char_result(s: Seq<char>, c: char)
    ensures
        match find_char(s, c) {
            Some(i) => i < s.len() && s[i as int] == c && !s.take(i as int).contains(c),
            None => !s.contains(c),
        },
    decreases s.len(),
{
    if s.len() > 0 && s[0] != c {
        lemma_find_char_result(s.skip(1), c);
        match find_char(s.skip(1), c) {
            Some(i) => {
                assert(s[i as int + 1] == s.skip(1)[i as int]);
                let pre = s.take(i as int + 1);
                if pre.contains(c) {
                    let j = choose|j: int| 0 <= j < pre.len() && pre[j] == c;
                    assert(j > 0);
                    assert(s.skip(1).take(i as int)[j - 1] == c);
                }
            },
            None => {
                if s.contains(c) {
                    let j = choose|j: int| 0 <= j < s.len() && s[j] == c;
                    assert(s.skip(1)[j - 1] == c);
                }
            },
        }
    } else if s.len() > 0 {
        assert(s.take(0) =~= Seq::<char>::empty());
    }
}

proof fn lemma_join_front(a: Seq<char>, rest: Seq<Seq<char>>, sep: Seq<char>)
    requires
        rest.len() >= 1,
    ensures
        join_with(seq![a] + rest, sep) == a + sep + join_with(rest, sep),
    decreases rest.len(),
{
    let all = seq![a] + rest;
    if rest.len() == 1 {
        assert(all.drop_last() =~= seq![a]);
        assert(all.last() == rest[0]);
        assert(join_with(seq![a], sep) == a);
        assert(join_with(rest, sep) == rest[0]);
        assert(join_with(all, sep) == join_with(all.drop_last(), sep) + sep + all.last());
    } else {
        lemma_join_front(a, rest.drop_last(), sep);
        assert(all.drop_last() =~= seq![a] + rest.drop_last());
        assert(all.last() == rest.last());
        assert(join_with(all, sep) == join_with(all.drop_last(), sep) + sep + all.last());
        assert(join_with(rest, sep) == join_with(rest.drop_last(), sep) + sep + rest.last());
        assert(a + sep + join_with(rest.drop_last(), sep) + sep + rest.last() =~= a + sep + (join_with(
            rest.drop_last(),
            sep,
        ) + sep + rest.last()));
    }
}

/// Cutting a text at its first `n - 1` separators: the pieces joined again
/// with the separator give the text back; there are between one and `n` of
/// them; no piece but the last holds the separator, and the last holds it
/// only when there are `n` pieces.
pub proof fn lemma_splitn_pieces(s: Seq<char>, c: char, n: nat)
    requires
        n >= 1,
    ensures
        join_with(splitn(s, c, n), seq![c]) == s,
        1 <= splitn(s, c, n).len() <= n,
        forall|i: int| 0 <= i < splitn(s, c, n).len() - 1 ==> !(#[trigger] splitn(s, c, n)[i]).contains(c),
        splitn(s, c, n).len() < n ==> !splitn(s, c, n).last().contains(c),
    decreases n,
{
    lemma_find_char_result(s, c);
    if n > 1 {
        match find_char(s, c) {
            None => {},
            Some(i) => {
                let rest = splitn(s.skip(i as int + 1), c, (n - 1) as nat);
                lemma_splitn_pieces(s.skip(i as int + 1), c, (n - 1) as nat);
                let pieces = splitn(s, c, n);
                assert(pieces == seq![s.take(i as int)] + rest);
                lemma_join_front(s.take(i as int), rest, seq![c]);
                assert(s.take(i as int) + seq![c] + s.skip(i as int + 1) =~= s);
                assert forall|k: int| 0 <= k < pieces.len() - 1 implies !(#[trigger] pieces[k]).contains(c) by {
                    if k > 0 {
                        assert(pieces[k] == rest[k - 1]);
                    }
                }
                assert(pieces.last() == rest.last());
            },
        }
    }
}

/// A command to the pipeline stage.
#[derive(Debug)]
pub enum StageCommand {
    /// Write the raw vehicle data into `dir`.
    Fetch { dir: String },
    /// Normalize the raw data in `dir`.
    Normalize { dir: String },
    /// Validate the normalized data in `dir`.
    Validate { dir: String },
    /// Copy the normalized data of `src` into `dst`.
    Export { src: String, dst: String },
}

/// The words of a command: the trimmed text cut at its first two colons.
pub open spec fn command_words(cmd: Seq<char>) -> Seq<Seq<char>> {
    splitn(trimmed(cmd), ':', 3)
}

/// The words name one of the stages with the right number of arguments.
pub open spec fn known_command(w: Seq<Seq<char>>) -> bool {
    ||| w.len() == 2 && (w[0] == "fetch"@ || w[0] == "normalize"@ || w[0] == "validate"@)
    ||| w.len() == 3 && w[0] == "export"@
}

/// `r` is what reading the command text `cmd` gives: the stage it names, or
/// the refusal of an unknown command.
pub open spec fn reads_command(cmd: Seq<char>, r: Result<StageCommand, String>) -> bool {
    let w = command_words(cmd);
    match r {
        Ok(StageCommand::Fetch { dir }) => w.len() == 2 && w[0] == "fetch"@ && dir@ == w[1],
        Ok(StageCommand::Normalize { dir }) => w.len() == 2 && w[0] == "normalize"@ && dir@ == w[1],
        Ok(StageCommand::Validate { dir }) => w.len() == 2 && w[0] == "validate"@ && dir@ == w[1],
        Ok(StageCommand::Export { src, dst }) => w.len() == 3 && w[0] == "export"@ && src@ == w[1]
            && dst@ == w[2],
        Err(e) => !known_command(w) && e@ == "Unknown stage command: "@ + trimmed(cmd),
    }
}

/// Reads a stage command: `fetch:DIR`, `normalize:DIR`, `validate:DIR` or
/// `export:SRC:DST`, white space around it ignored.
pub fn parse_stage_command(cmd: &str) -> (r: Result<StageCommand, String>)
    ensures
        reads_command(cmd@, r),
{
    let t = str_trim(cmd);
    let mut unknown = String::from_str("Unknown stage command: ");
    unknown.append(t);
    match str_split_once(t, ':') {
        None => {
            proof {
                lemma_find_none(t@, ':');
                assert(command_words(cmd@) =~= seq![t@]);
            }
            Err(unknown)
        },
        Some((head, rest)) => {
            proof {
                lemma_find_first(head@, rest@, ':');
                assert(t@.take(head@.len() as int) =~= head@);
                assert(t@.skip(head@.len() as int + 1) =~= rest@);
            }
            match str_split_once(rest, ':') {
                None => {
                    proof {
                        lemma_find_none(rest@, ':');
                        assert(splitn(rest@, ':', 2) =~= seq![rest@]);
                        assert(command_words(cmd@) =~= seq![head@, rest@]);
                    }
                    if str_eq(head, "fetch") {
                        Ok(StageCommand::Fetch { dir: rest.to_owned() })
                    } else if str_eq(head, "normalize") {
                        Ok(StageCommand::Normalize { dir: rest.to_owned() })
                    } else if str_eq(head, "validate") {
                        Ok(StageCommand::Validate { dir: rest.to_owned() })
                    } else {
                        Err(unknown)
                    }
                },
                Some((mid, tail)) => {
                    proof {
                        lemma_find_first(mid@, tail@, ':');
                        assert(rest@.take(mid@.len() as int) =~= mid@);
                        assert(rest@.skip(mid@.len() as int + 1) =~= tail@);
                        assert(splitn(tail@, ':', 1) =~= seq![tail@]);
                        assert(splitn(rest@, ':', 2) =~= seq![mid@, tail@]);
                        assert(command_words(cmd@) =~= seq![head@, mid@, tail@]);
                    }
                    if str_eq(head, "export") {
                        Ok(StageCommand::Export { src: mid.to_owned(), dst: tail.to_owned() })
                    } else {
                        Err(unknown)
                    }
                },
            }
        },
    }
}


/// Reads the command in a task's input: its UTF-8 text, read as a stage command.
pub fn stage_command_of(content: Vec<u8>) -> (r: Result<StageCommand, String>)
    ensures
        !vstd::utf8::valid_utf8(content@) ==> (r matches Err(e) && e@ == utf8_error_text(content@)),
        vstd::utf8::valid_utf8(content@) ==> reads_command(vstd::utf8::decode_utf8(content@), r),
{
    let cmd = decode_utf8(content)?;
    parse_stage_command(cmd.as_str())
}

/// The make and model of entry `k` of the vehicle table (`k < 8`).
pub open spec fn make_model(k: nat) -> (Seq<char>, Seq<char>) {
    if k == 0 {
        ("Toyota"@, "Camry"@)
    } else if k == 1 {
        ("Honda"@, "Civic"@)
    } else if k == 2 {
        ("Ford"@, "F-150"@)
    } else if k == 3 {
        ("BMW"@, "3 Series"@)
    } else if k == 4 {
        ("Tesla"@, "Model 3"@)
    } else if k == 5 {
        ("Nissan"@, "Altima"@)
    } else if k == 6 {
        ("Chevrolet"@, "Malibu"@)
    } else {
        ("Hyundai"@, "Elantra"@)
    }
}

fn vehicle_model(k: u32) -> (r: (&'static str, &'static str))
    requires
        k < 8,
    ensures
        r.0@ == make_model(k as nat).0,
        r.1@ == make_model(k as nat).1,
{
    if k == 0 {
        ("Toyota", "Camry")
    } else if k == 1 {
        ("Honda", "Civic")
    } else if k == 2 {
        ("Ford", "F-150")
    } else if k == 3 {
        ("BMW", "3 Series")
    } else if k == 4 {
        ("Tesla", "Model 3")
    } else if k == 5 {
        ("Nissan", "Altima")
    } else if k == 6 {
        ("Chevrolet", "Malibu")
    } else {
        ("Hyundai", "Elantra")
    }
}

/// The registration year of vehicle `i`: 1999 for vehicle 184, else in 2015..=2023.
pub open spec fn vehicle_year(i: nat) -> nat {
    if i == 184 {
        1999
    } else {
        2015 + i % 9
    }
}

/// The mileage of vehicle `i`.
pub open spec fn vehicle_mileage(i: nat) -> nat {
    5000 + (i * 1247) % 80000
}

/// In the vehicle data exactly one vehicle, number 184, has a registration
/// year outside 2000..=2025; every mileage lies in 5000..85000.
pub proof fn lemma_one_bad_vehicle(i: nat)
    requires
        1 <= i <= 200,
    ensures
        (2000 <= vehicle_year(i) <= 2025) <==> i != 184,
        5000 <= vehicle_mileage(i) < 85000,
{
}

/// `k` zeros.
pub open spec fn zeros(k: nat) -> Seq<char> {
    Seq::new(k, |_i: int| '0')
}

/// The digits `d` with zeros in front, to a width of at least `w`.
pub open spec fn zero_padded(d: Seq<char>, w: nat) -> Seq<char> {
    if d.len() < w {
        zeros((w - d.len()) as nat) + d
    } else {
        d
    }
}

/// The VIN of vehicle `i`.
pub open spec fn vehicle_vin(i: nat) -> Seq<char> {
    "1HGCM"@ + zero_padded(decimal(i), 11)
}

/// The CSV line of vehicle `i` (1-based), with its line ending.
pub open spec fn vehicle_row(i: nat) -> Seq<char> {
    let (make, model) = make_model(((i - 1) as nat) % 8);
    decimal(i) + ","@ + make + ","@ + model + ","@ + decimal(vehicle_year(i)) + ","@
        + vehicle_vin(i) + ","@ + decimal(vehicle_mileage(i)) + "\n"@
}

/// The lines of vehicles `1..=n`.
pub open spec fn vehicle_rows(n: nat) -> Seq<char>
    decreases n,
{
    if n == 0 {
        Seq::empty()
    } else {
        vehicle_rows((n - 1) as nat) + vehicle_row(n)
    }
}

/// The raw vehicle data: a header and 200 vehicles.
pub open spec fn vehicle_csv() -> Seq<char> {
    "id,make,model,year,vin,mileage\n"@ + vehicle_rows(200)
}

/// `n` in decimal, zero-padded to at least `width` digits.
pub fn zero_pad(n: u32, width: usize) -> (r: String)
    ensures
        r@ == zero_padded(decimal(n as nat), width as nat),
{
    let d = u32_to_decimal(n);
    let len = d.as_str().unicode_len();
    if len >= width {
        return d;
    }
    let mut s = String::new();
    let mut j: usize = 0;
    while j < width - len
        invariant
            len < width,
            j <= width - len,
            s@ == zeros(j as nat),
        decreases width - len - j,
    {
        s.append("0");
        proof {
            reveal_strlit("0");
        }
        assert(s@ =~= zeros((j + 1) as nat));
        j = j + 1;
    }
    s.append(d.as_str());
    s
}

/// The CSV line of vehicle `i`.
fn vehicle_line(i: u32) -> (r: String)
    requires
        1 <= i <= 200,
    ensures
        r@ == vehicle_row(i as nat),
{
    let (make, model) = vehicle_model((i - 1) % 8);
    let year: u32 = if i == 184 {
        1999
    } else {
        2015 + i % 9
    };
    let mileage: u32 = 5000 + (i * 1247) % 80000;
    let mut line = u32_to_decimal(i);
    line.append(",");
    line.append(make);
    line.append(",");
    line.append(model);
    line.append(",");
    let y = u32_to_decimal(year);
    line.append(y.as_str());
    line.append(",");
    line.append("1HGCM");
    let v = zero_pad(i, 11);
    line.append(v.as_str());
    line.append(",");
    let m = u32_to_decimal(mileage);
    line.append(m.as_str());
    line.append("\n");
    line
}

/// The raw vehicle data that the fetch stage writes.
pub fn fetch_csv() -> (r: String)
    ensures
        r@ == vehicle_csv(),
{
    let mut csv = String::from_str("id,make,model,year,vin,mileage\n");
    let mut i: u32 = 1;
    while i <= 200
        invariant
            1 <= i <= 201,
            csv@ == "id,make,model,year,vin,mileage\n"@ + vehicle_rows((i - 1) as nat),
        decreases 201 - i,
    {
        let line = vehicle_line(i);
        csv.append(line.as_str());
        assert(vehicle_rows(i as nat) == vehicle_rows((i - 1) as nat) + vehicle_row(i as nat));
        i = i + 1;
    }
    csv
}

/// A line with every comma-separated field trimmed.
pub open spec fn normalize_line(line: Seq<char>) -> Seq<char> {
    join_with(split_on(line, ',').map_values(|f: Seq<char>| trimmed(f)), ","@)
}

/// The text with every field of every line trimmed, the lines ended by `\n`.
pub open spec fn normalized_text(src: Seq<char>) -> Seq<char> {
    join_with(lines_of(src).map_values(|l: Seq<char>| normalize_line(l)), "\n"@) + "\n"@
}

/// Normalizing a line keeps its fields and trims each one: the fields of the
/// result are the fields of `line`, in order, each without the white space
/// around it.
pub proof fn lemma_normalize_trims_every_field(line: Seq<char>)
    ensures
        split_on(normalize_line(line), ',').len() == split_on(line, ',').len(),
        forall|i: int|
            0 <= i < split_on(line, ',').len() ==> trim_of(
                #[trigger] split_on(line, ',')[i],
                split_on(normalize_line(line), ',')[i],
            ),
{
    reveal_strlit(",");
    let fs = split_on(line, ',');
    let ps = fs.map_values(|f: Seq<char>| trimmed(f));
    lemma_split_on_pieces(line, ',');
    assert forall|i: int| 0 <= i < ps.len() implies !(#[trigger] ps[i]).contains(',') by {
        lemma_trimmed_is_trim(fs[i]);
        let (a, b) = choose|a: int, b: int|
            0 <= a <= b <= fs[i].len() && trimmed(fs[i]) == fs[i].subrange(a, b) && (forall|k: int|
                0 <= k < a ==> is_white(#[trigger] fs[i][k])) && (forall|k: int|
                b <= k < fs[i].len() ==> is_white(#[trigger] fs[i][k])) && (a < b ==> !is_white(fs[i][a])
                && !is_white(fs[i][b - 1]));
        if ps[i].contains(',') {
            let j = choose|j: int| 0 <= j < ps[i].len() && ps[i][j] == ',';
            assert(fs[i][a + j] == ',');
            assert(fs[i].contains(','));
        }
    }
    assert(","@ == seq![',']);
    lemma_split_join(ps, ',');
    assert(split_on(normalize_line(line), ',') == ps);
    assert forall|i: int| 0 <= i < fs.len() implies trim_of(#[trigger] fs[i], split_on(normalize_line(line), ',')[i]) by {
        lemma_trimmed_is_trim(fs[i]);
    }
}

proof fn lemma_join_chars(ps: Seq<Seq<char>>, sep: Seq<char>, x: char)
    requires
        join_with(ps, sep).contains(x),
    ensures
        sep.contains(x) || exists|i: int| 0 <= i < ps.len() && (#[trigger] ps[i]).contains(x),
    decreases ps.len(),
{
    let j = join_with(ps, sep);
    if ps.len() == 1 {
        assert(ps[0].contains(x));
    } else if ps.len() > 1 {
        let a = join_with(ps.drop_last(), sep);
        assert(j == a + sep + ps.last());
        let k = choose|k: int| 0 <= k < j.len() && j[k] == x;
        if k < a.len() {
            assert(a[k] == x);
            assert(a.contains(x));
            lemma_join_chars(ps.drop_last(), sep, x);
            if !sep.contains(x) {
                let i = choose|i: int| 0 <= i < ps.drop_last().len() && (#[trigger] ps.drop_last()[i]).contains(x);
                assert(ps[i] == ps.drop_last()[i]);
            }
        } else if k < a.len() + sep.len() {
            assert(sep[k - a.len()] == x);
        } else {
            assert(ps.last()[k - a.len() - sep.len()] == x);
            assert(ps[ps.len() - 1].contains(x));
        }
    }
}

proof fn lemma_split_chars(s: Seq<char>, c: char, i: int, x: char)
    requires
        0 <= i < split_on(s, c).len(),
        split_on(s, c)[i].contains(x),
    ensures
        s.contains(x),
    decreases s.len(),
{
    if s.len() > 0 {
        lemma_split_on_pieces(s.drop_last(), c);
        let prev = split_on(s.drop_last(), c);
        let cur = split_on(s, c);
        if s.last() == c {
            if i < prev.len() {
                assert(cur[i] == prev[i]);
                lemma_split_chars(s.drop_last(), c, i, x);
                let k = choose|k: int| 0 <= k < s.drop_last().len() && s.drop_last()[k] == x;
                assert(s[k] == x);
            }
        } else {
            if i < prev.len() - 1 {
                assert(cur[i] == prev[i]);
                lemma_split_chars(s.drop_last(), c, i, x);
                let k = choose|k: int| 0 <= k < s.drop_last().len() && s.drop_last()[k] == x;
                assert(s[k] == x);
            } else {
                let p = prev.last().push(s.last());
                assert(cur[i] == p);
                let k = choose|k: int| 0 <= k < p.len() && p[k] == x;
                if k < prev.last().len() {
                    assert(prev[prev.len() - 1][k] == x);
                    lemma_split_chars(s.drop_last(), c, prev.len() - 1, x);
                    let q = choose|q: int| 0 <= q < s.drop_last().len() && s.drop_last()[q] == x;
                    assert(s[q] == x);
                } else {
                    assert(s[s.len() - 1] == x);
                }
            }
        }
    }
}

/// A normalized line holds no character that its line does not hold, but commas.
proof fn lemma_normalize_line_chars(line: Seq<char>, x: char)
    requires
        normalize_line(line).contains(x),
        x != ',',
    ensures
        line.contains(x),
{
    reveal_strlit(",");
    let fs = split_on(line, ',');
    let ps = fs.map_values(|f: Seq<char>| trimmed(f));
    lemma_join_chars(ps, ","@, x);
    if ","@.contains(x) {
        let k = choose|k: int| 0 <= k < ","@.len() && ","@[k] == x;
    } else {
        let i = choose|i: int| 0 <= i < ps.len() && (#[trigger] ps[i]).contains(x);
        lemma_trimmed_is_trim(fs[i]);
        let (a, b) = choose|a: int, b: int|
            0 <= a <= b <= fs[i].len() && trimmed(fs[i]) == fs[i].subrange(a, b) && (forall|k: int|
                0 <= k < a ==> is_white(#[trigger] fs[i][k])) && (forall|k: int|
                b <= k < fs[i].len() ==> is_white(#[trigger] fs[i][k])) && (a < b ==> !is_white(fs[i][a])
                && !is_white(fs[i][b - 1]));
        let k = choose|k: int| 0 <= k < ps[i].len() && ps[i][k] == x;
        assert(fs[i][a + k] == x);
        assert(fs[i].contains(x));
        lemma_split_chars(line, ',', i, x);
    }
}

/// Normalized text is the normalized lines of the input, each ended by a
/// line feed (a lone line feed when the input has no line).
pub proof fn lemma_normalized_text_lines(src: Seq<char>)
    ensures
        lines_of(src).len() > 0 ==> split_on(normalized_text(src), '\n') == lines_of(src).map_values(
            |l: Seq<char>| normalize_line(l),
        ).push(Seq::<char>::empty()),
        lines_of(src).len() == 0 ==> normalized_text(src) == "\n"@,
{
    reveal_strlit("\n");
    let ls = lines_of(src);
    let ps = ls.map_values(|l: Seq<char>| normalize_line(l));
    let p = split_on(src, '\n');
    lemma_split_on_pieces(src, '\n');
    // No line holds a line feed, so no normalized line does.
    assert forall|i: int| 0 <= i < ps.len() implies !(#[trigger] ps[i]).contains('\n') by {
        if ps[i].contains('\n') {
            lemma_normalize_line_chars(ls[i], '\n');
            let k = choose|k: int| 0 <= k < ls[i].len() && ls[i][k] == '\n';
            assert(ls[i][k] == p[i][k]);
            assert(p[i].contains('\n'));
        }
    }
    if ls.len() > 0 {
        lemma_split_join(ps, '\n');
        let j = join_with(ps, seq!['\n']);
        assert("\n"@ == seq!['\n']);
        assert(normalized_text(src) == j + seq!['\n']);
        assert((j + seq!['\n']).drop_last() =~= j);
        assert((j + seq!['\n']).last() == '\n');
    } else {
        assert(join_with(ps, "\n"@) == Seq::<char>::empty());
        assert(normalized_text(src) =~= "\n"@);
    }
}

fn trim_fields(line: &str) -> (r: String)
    ensures
        r@ == normalize_line(line@),
{
    let fields = str_split(line, ',');
    let ghost parts = split_on(line@, ',').map_values(|f: Seq<char>| trimmed(f));
    let mut out = String::new();
    let mut i: usize = 0;
    while i < fields.len()
        invariant
            i <= fields.len(),
            fields@.map_values(|x: &str| x@) == split_on(line@, ','),
            parts == split_on(line@, ',').map_values(|f: Seq<char>| trimmed(f)),
            parts.len() == fields.len(),
            out@ == join_with(parts.take(i as int), ","@),
        decreases fields.len() - i,
    {
        proof {
            lemma_join_step(parts, ","@, i as int);
            assert(fields@.map_values(|x: &str| x@)[i as int] == fields@[i as int]@);
        }
        if i > 0 {
            out.append(",");
        } else {
            assert(out@ =~= Seq::<char>::empty());
        }
        let f = str_trim(fields[i]);
        out.append(f);
        i = i + 1;
    }
    assert(parts.take(fields.len() as int) =~= parts);
    out
}

/// Trims every field of every line of `src`; gives the new text and its
/// number of data lines (its lines but the header).
pub fn normalize_csv(src: &str) -> (r: (String, usize))
    ensures
        r.0@ == normalized_text(src@),
        r.1 == (if lines_of(r.0@).len() > 0 {
            lines_of(r.0@).len() - 1
        } else {
            0
        }),
{
    let lines = str_lines(src);
    let ghost parts = lines_of(src@).map_values(|l: Seq<char>| normalize_line(l));
    let mut out = String::new();
    let mut i: usize = 0;
    while i < lines.len()
        invariant
            i <= lines.len(),
            lines@.map_values(|x: &str| x@) == lines_of(src@),
            parts == lines_of(src@).map_values(|l: Seq<char>| normalize_line(l)),
            parts.len() == lines.len(),
            out@ == join_with(parts.take(i as int), "\n"@),
        decreases lines.len() - i,
    {
        proof {
            lemma_join_step(parts, "\n"@, i as int);
            assert(lines@.map_values(|x: &str| x@)[i as int] == lines@[i as int]@);
        }
        if i > 0 {
            out.append("\n");
        } else {
            assert(out@ =~= Seq::<char>::empty());
        }
        let l = trim_fields(lines[i]);
        out.append(l.as_str());
        i = i + 1;
    }
    assert(parts.take(lines.len() as int) =~= parts);
    out.append("\n");
    let count = str_lines(out.as_str()).len();
    let rows = if count > 0 {
        count - 1
    } else {
        0
    };
    (out, rows)
}

/// The message for a registration year out of range.
pub open spec fn year_message(row: nat, year: nat, path: Seq<char>) -> Seq<char> {
    "invalid registration_year at row "@ + decimal(row) + " (year="@ + decimal(year)
        + ", must be 2000-2025)\nFix: sed -i '"@ + decimal(row + 1) + "s/"@ + decimal(year)
        + "/2019/' "@ + path + "\nThen retry from validate"@
}

/// What is wrong with data line `row` (1-based, after the header), if anything:
/// fewer than four fields, a fourth field that is no number, or a year outside
/// 2000..=2025.
pub open spec fn row_problem(line: Seq<char>, row: nat, path: Seq<char>) -> Option<Seq<char>> {
    let fields = split_on(line, ',');
    if fields.len() < 4 {
        Some(
            "malformed row "@ + decimal(row) + " (expected 6 fields, got "@ + decimal(fields.len())
                + ")"@,
        )
    } else {
        match parsed_u32(fields[3]) {
            None => Some("invalid registration_year at row "@ + decimal(row) + " (not a number)"@),
            Some(y) => if 2000 <= y <= 2025 {
                None
            } else {
                Some(year_message(row, y as nat, path))
            },
        }
    }
}

/// The problem of the first bad line among `lines[k..]`, each line `j` being data row `j`.
pub open spec fn first_problem(lines: Seq<Seq<char>>, path: Seq<char>, k: nat) -> Option<Seq<char>>
    decreases lines.len() - k,
{
    if k >= lines.len() {
        None
    } else {
        match row_problem(lines[k as int], k, path) {
            Some(m) => Some(m),
            None => first_problem(lines, path, k + 1),
        }
    }
}

/// A data line is fine: it has at least four comma-separated fields and the
/// fourth is a year in 2000..=2025.
pub open spec fn row_fine(line: Seq<char>) -> bool {
    let fields = split_on(line, ',');
    fields.len() >= 4 && (parsed_u32(fields[3]) matches Some(y) && 2000 <= y <= 2025)
}

/// Validation looks at the lines from `k` on: it finds nothing exactly when
/// every one of them is fine, and otherwise reports the problem of the first
/// line that is not.
pub proof fn lemma_first_problem(lines: Seq<Seq<char>>, path: Seq<char>, k: nat)
    ensures
        first_problem(lines, path, k) is None <==> forall|j: int| k <= j < lines.len() ==> row_fine(#[trigger] lines[j]),
        first_problem(lines, path, k) matches Some(m) ==> exists|j: int|
            k <= j < lines.len() && !row_fine(#[trigger] lines[j]) && row_problem(lines[j], j as nat, path) == Some(m)
                && forall|q: int| k <= q < j ==> row_fine(#[trigger] lines[q]),
    decreases lines.len() - k,
{
    if k < lines.len() {
        lemma_first_problem(lines, path, k + 1);
        let l = lines[k as int];
        assert(row_problem(l, k, path) is None <==> row_fine(l));
        if row_problem(l, k, path) is None {
            assert forall|j: int| k <= j < lines.len() && k + 1 > j implies row_fine(#[trigger] lines[j]) by {
                assert(j == k);
            }
        }
    }
}

fn check_row(line: &str, row: usize, path: &str) -> (r: Option<String>)
    requires
        row < usize::MAX,
    ensures
        match r {
            Some(m) => row_problem(line@, row as nat, path@) == Some(m@),
            None => row_problem(line@, row as nat, path@) is None,
        },
{
    let fields = str_split(line, ',');
    let n = fields.len();
    if n < 4 {
        let mut m = String::from_str("malformed row ");
        let r = usize_to_decimal(row);
        m.append(r.as_str());
        m.append(" (expected 6 fields, got ");
        let c = usize_to_decimal(n);
        m.append(c.as_str());
        m.append(")");
        return Some(m);
    }
    proof {
        assert(fields@.map_values(|x: &str| x@)[3] == fields@[3]@);
    }
    match parse_u32(fields[3]) {
        None => {
            let mut m = String::from_str("invalid registration_year at row ");
            let r = usize_to_decimal(row);
            m.append(r.as_str());
            m.append(" (not a number)");
            Some(m)
        },
        Some(year) => {
            if 2000 <= year && year <= 2025 {
                None
            } else {
                let mut m = String::from_str("invalid registration_year at row ");
                let r = usize_to_decimal(row);
                m.append(r.as_str());
                m.append(" (year=");
                let y = u32_to_decimal(year);
                m.append(y.as_str());
                m.append(", must be 2000-2025)\nFix: sed -i '");
                let r1 = usize_to_decimal(row + 1);
                m.append(r1.as_str());
                m.append("s/");
                m.append(y.as_str());
                m.append("/2019/' ");
                m.append(path);
                m.append("\nThen retry from validate");
                Some(m)
            }
        },
    }
}

/// Checks every data line of normalized text (the lines after the first);
/// `path` is named in the advice for a bad year. Fails with the problem of
/// the first bad line.
pub fn validate_csv(src: &str, path: &str) -> (r: Result<(), String>)
    ensures
        match r {
            Ok(_) => first_problem(lines_of(src@), path@, 1) is None,
            Err(e) => first_problem(lines_of(src@), path@, 1) == Some(e@),
        },
        r is Ok <==> forall|j: int| 1 <= j < lines_of(src@).len() ==> row_fine(#[trigger] lines_of(src@)[j]),
{
    proof {
        lemma_first_problem(lines_of(src@), path@, 1);
    }
    let lines = str_lines(src);
    let ghost ls = lines_of(src@);
    let mut k: usize = 1;
    while k < lines.len()
        invariant
            1 <= k,
            lines@.map_values(|x: &str| x@) == ls,
            ls == lines_of(src@),
            first_problem(ls, path@, 1) == first_problem(ls, path@, k as nat),
        decreases lines.len() - k,
    {
        proof {
            assert(lines@.map_values(|x: &str| x@)[k as int] == lines@[k as int]@);
        }
        match check_row(lines[k], k, path) {
            Some(m) => {
                return Err(m);
            },
            None => {},
        }
        k = k + 1;
    }
    Ok(())
}

/// Where the fetch stage writes in `dir`.
pub fn raw_csv_path(dir: &str) -> (r: String)
    ensures
        r@ == dir@ + "/raw.csv"@,
{
    let mut p = String::from_str(dir);
    p.append("/raw.csv");
    p
}

/// Where the normalize stage writes in `dir` (and the validate and export stages read).
pub fn normalized_csv_path(dir: &str) -> (r: String)
    ensures
        r@ == dir@ + "/normalized.csv"@,
{
    let mut p = String::from_str(dir);
    p.append("/normalized.csv");
    p
}

/// Where the export stage writes in `dir`.
pub fn vehicles_csv_path(dir: &str) -> (r: String)
    ensures
        r@ == dir@ + "/vehicles.csv"@,
{
    let mut p = String::from_str(dir);
    p.append("/vehicles.csv");
    p
}

/// The failure of a stage that cannot `verb` (read or write) `path`.
pub fn io_failure(verb: &str, path: &str, err: &str) -> (r: String)
    ensures
        r@ == "Cannot "@ + verb@ + " "@ + path@ + ": "@ + err@,
{
    let mut m = String::from_str("Cannot ");
    m.append(verb);
    m.append(" ");
    m.append(path);
    m.append(": ");
    m.append(err);
    m
}

/// What the fetch stage answers after writing the raw data to `path`.
pub fn fetch_reply(path: &str) -> (r: TaskReply)
    ensures
        r.content@ == "Wrote 200 rows to "@ + path@,
        pairs(r.metadata@) == seq![("rows"@, "200"@)],
{
    let mut msg = String::from_str("Wrote 200 rows to ");
    msg.append(path);
    reply1(msg, "rows", String::from_str("200"))
}

/// What the normalize stage answers after writing `rows` data lines to `out`.
pub fn normalize_reply(rows: usize, out: &str) -> (r: TaskReply)
    ensures
        r.content@ == "Normalized "@ + decimal(rows as nat) + " rows -> "@ + out@,
        pairs(r.metadata@) == seq![("rows"@, decimal(rows as nat))],
{
    let mut msg = String::from_str("Normalized ");
    let n = usize_to_decimal(rows);
    msg.append(n.as_str());
    msg.append(" rows -> ");
    msg.append(out);
    reply1(msg, "rows", usize_to_decimal(rows))
}

/// The validate stage on the normalized text `src` read from `path`.
pub fn validate_stage(src: &str, path: &str) -> (r: Result<TaskReply, String>)
    ensures
        match r {
            Ok(t) => first_problem(lines_of(src@), path@, 1) is None && t.content@
                == "All 200 rows valid"@ && pairs(t.metadata@) == seq![("status"@, "valid"@)],
            Err(e) => first_problem(lines_of(src@), path@, 1) == Some(e@),
        },
{
    match validate_csv(src, path) {
        Ok(_) => Ok(reply1(String::from_str("All 200 rows valid"), "status", String::from_str("valid"))),
        Err(e) => Err(e),
    }
}

/// What the export stage answers after copying `bytes` bytes to `dst`.
pub fn export_reply(bytes: usize, dst: &str) -> (r: TaskReply)
    ensures
        r.content@ == "Exported "@ + decimal(bytes as nat) + " bytes -> "@ + dst@,
        pairs(r.metadata@) == seq![("output"@, dst@), ("bytes"@, decimal(bytes as nat))],
{
    let mut msg = String::from_str("Exported ");
    let n = usize_to_decimal(bytes);
    msg.append(n.as_str());
    msg.append(" bytes -> ");
    msg.append(dst);
    reply2(msg, "output", dst.to_owned(), "bytes", usize_to_decimal(bytes))
}

} // verus!
