//! Abbreviations and rabbinic acronyms, expanded in both directions.
//!
//! A sefer is written one way on its own title page and another way in every
//! footnote that cites it. `שולחן ערוך`, `שו"ע` and `ש"ע` are one book, and a
//! reader who types any of them means the same thing. This table answers a
//! smaller question than the resolver: what else could this word be written
//! as.
use vstd::prelude::*;

use crate::hebrew::normalize::{normalize, normalized};
use crate::text::{same_text, strings};

verus! {

/// One row of a table: an abbreviation and every way it is written out.
pub type Entry = (&'static str, Vec<&'static str>);

/// A row as text.
pub open spec fn entry_view(e: Entry) -> (Seq<char>, Seq<Seq<char>>) {
    (e.0@, e.1@.map_values(|s: &str| s@))
}

/// A table of abbreviations, usable in both directions.
pub struct AbbreviationTable {
    entries: Vec<Entry>,
}

impl View for AbbreviationTable {
    type V = Seq<(Seq<char>, Seq<Seq<char>>)>;

    closed spec fn view(&self) -> Seq<(Seq<char>, Seq<Seq<char>>)> {
        self.entries@.map_values(|e: Entry| entry_view(e))
    }
}

/// What one row offers for a normal form, through its first `k` long forms:
/// each long form where the abbreviation is the key, and the abbreviation
/// where that long form is.
pub open spec fn entry_hits(short: Seq<char>, longs: Seq<Seq<char>>, key: Seq<char>, k: int) -> Seq<
    Seq<char>,
>
    decreases k,
{
    if k <= 0 {
        Seq::empty()
    } else {
        let p = entry_hits(short, longs, key, k - 1);
        let p = if normalized(short) == key {
            p.push(longs[k - 1])
        } else {
            p
        };
        if normalized(longs[k - 1]) == key {
            p.push(short)
        } else {
            p
        }
    }
}

/// What the first `n` rows offer for a normal form, in table order.
pub open spec fn table_hits(t: Seq<(Seq<char>, Seq<Seq<char>>)>, key: Seq<char>, n: int) -> Seq<
    Seq<char>,
>
    decreases n,
{
    if n <= 0 {
        Seq::empty()
    } else {
        table_hits(t, key, n - 1) + entry_hits(t[n - 1].0, t[n - 1].1, key, t[n - 1].1.len() as int)
    }
}

/// One offer taken or passed over: passed over when it is the term again
/// or has already been taken.
pub open spec fn offer(p: Seq<Seq<char>>, x: Seq<char>, key: Seq<char>) -> Seq<Seq<char>> {
    if normalized(x) == key || p.contains(x) {
        p
    } else {
        p.push(x)
    }
}

/// The offers that are kept, in order.
pub open spec fn kept(c: Seq<Seq<char>>, key: Seq<char>) -> Seq<Seq<char>>
    decreases c.len(),
{
    if c.len() == 0 {
        Seq::empty()
    } else {
        offer(kept(c.drop_last(), key), c.last(), key)
    }
}

/// Everything `term` could be written as instead, according to a table.
pub open spec fn expansions(t: Seq<(Seq<char>, Seq<Seq<char>>)>, term: Seq<char>) -> Seq<Seq<char>> {
    kept(table_hits(t, normalized(term), t.len() as int), normalized(term))
}

proof fn lemma_kept_push(c: Seq<Seq<char>>, x: Seq<char>, key: Seq<char>)
    ensures
        kept(c.push(x), key) == offer(kept(c, key), x, key),
{
    assert(c.push(x).drop_last() == c);
}

fn offer_into(out: &mut Vec<String>, candidate: &str, key: &String)
    ensures
        strings(final(out)@) == offer(strings(old(out)@), candidate@, key@),
{
    let n = normalize(candidate);
    if n == *key {
        return;
    }
    let mut i: usize = 0;
    while i < out.len()
        invariant
            i <= out.len(),
            forall|j: int| 0 <= j < i ==> strings(out@)[j] != candidate@,
        decreases out.len() - i,
    {
        if same_text(out[i].as_str(), candidate) {
            assert(strings(out@)[i as int] == candidate@);
            return;
        }
        i += 1;
    }
    let ghost before = strings(out@);
    out.push(candidate.to_owned());
    assert(strings(out@) =~= before.push(candidate@));
}

impl AbbreviationTable {
    /// A table over a caller-supplied list, such as a reader's own shorthand.
    pub fn new(entries: Vec<Entry>) -> (t: Self)
        ensures
            t@ == entries@.map_values(|e: Entry| entry_view(e)),
    {
        AbbreviationTable { entries }
    }

    /// The table as written.
    pub fn entries(&self) -> (e: &[Entry])
        ensures
            e@.map_values(|e: Entry| entry_view(e)) == self@,
    {
        self.entries.as_slice()
    }

    /// Everything `term` could be written as instead.
    ///
    /// The term is matched by its normal form, so `שו"ע` and `שו״ע` are the
    /// same lookup. What comes back is the table's own spelling, verbatim,
    /// each once, in table order; a form whose normal form is the term's own
    /// is not offered.
    pub fn expansions_of(&self, term: &str) -> (out: Vec<String>)
        ensures
            strings(out@) == expansions(self@, term@),
    {
        let key = normalize(term);
        let ghost t = self@;
        let mut out: Vec<String> = Vec::new();
        let mut i: usize = 0;
        while i < self.entries.len()
            invariant
                t == self@,
                key@ == normalized(term@),
                i <= self.entries.len(),
                strings(out@) == kept(table_hits(t, key@, i as int), key@),
            decreases self.entries.len() - i,
        {
            let short = self.entries[i].0;
            let longs = &self.entries[i].1;
            let ghost e = t[i as int];
            assert(e == entry_view(self.entries@[i as int]));
            let short_is_key = normalize(short) == key;
            let ghost h = table_hits(t, key@, i as int);
            let mut k: usize = 0;
            while k < longs.len()
                invariant
                    e == (short@, longs@.map_values(|s: &str| s@)),
                    key@ == normalized(term@),
                    short_is_key == (normalized(short@) == key@),
                    k <= longs.len(),
                    strings(out@) == kept(h + entry_hits(e.0, e.1, key@, k as int), key@),
                decreases longs.len() - k,
            {
                let long = longs[k];
                assert(e.1[k as int] == long@);
                let ghost before = h + entry_hits(e.0, e.1, key@, k as int);
                let ghost mid = if short_is_key { before.push(long@) } else { before };
                if short_is_key {
                    proof {
                        lemma_kept_push(before, long@, key@);
                    }
                    offer_into(&mut out, long, &key);
                }
                let long_is_key = normalize(long) == key;
                if long_is_key {
                    proof {
                        lemma_kept_push(mid, short@, key@);
                    }
                    offer_into(&mut out, short, &key);
                }
                assert(h + entry_hits(e.0, e.1, key@, k + 1) =~= if long_is_key {
                    mid.push(short@)
                } else {
                    mid
                });
                k += 1;
            }
            assert(table_hits(t, key@, i + 1) == h + entry_hits(e.0, e.1, key@, e.1.len() as int));
            i += 1;
        }
        out
    }
}

/// The shipped table, as text: abbreviation and every way it is written out.
/// Where a sefer has several spellings in circulation, all are listed.
pub open spec fn shipped_entries() -> Seq<(Seq<char>, Seq<Seq<char>>)> {
    seq![
        ("שו\"ע"@, seq!["שולחן ערוך"@, "שלחן ערוך"@, "ש\"ע"@]),
        ("או\"ח"@, seq!["אורח חיים"@]),
        ("יו\"ד"@, seq!["יורה דעה"@]),
        ("אה\"ע"@, seq!["אבן העזר"@]),
        ("חו\"מ"@, seq!["חושן משפט"@]),
        ("מ\"ב"@, seq!["משנה ברורה"@]),
        ("ב\"י"@, seq!["בית יוסף"@]),
        ("ט\"ז"@, seq!["טורי זהב"@]),
        ("ש\"ך"@, seq!["שפתי כהן"@]),
        ("מג\"א"@, seq!["מגן אברהם"@]),
        ("פמ\"ג"@, seq!["פרי מגדים"@]),
        ("ערוה\"ש"@, seq!["ערוך השולחן"@, "ערוך השלחן"@]),
        ("קצוה\"ח"@, seq!["קצות החושן"@]),
        ("נתיה\"מ"@, seq!["נתיבות המשפט"@]),
        ("שעה\"צ"@, seq!["שער הציון"@]),
        ("בה\"ל"@, seq!["ביאור הלכה"@]),
        ("מ\"ת"@, seq!["משנה תורה"@, "יד החזקה"@]),
        ("סמ\"ג"@, seq!["ספר מצוות גדול"@]),
        ("סמ\"ק"@, seq!["ספר מצוות קטן"@]),
        ("תוס'"@, seq!["תוספות"@]),
        ("גמ'"@, seq!["גמרא"@]),
        ("מתני'"@, seq!["מתניתין"@]),
        ("ברייתא"@, seq!["ברייתות"@]),
        ("ירו'"@, seq!["ירושלמי"@, "תלמוד ירושלמי"@]),
        ("בבלי"@, seq!["תלמוד בבלי"@]),
        ("מדר\"ר"@, seq!["מדרש רבה"@]),
        ("ילק\"ש"@, seq!["ילקוט שמעוני"@]),
        ("שו\"ת"@, seq!["שאלות ותשובות"@]),
        ("רמב\"ם"@, seq!["רבינו משה בן מיימון"@, "רבי משה בן מימון"@]),
        ("רמב\"ן"@, seq!["רבינו משה בן נחמן"@, "רבי משה בן נחמן"@]),
        ("רש\"י"@, seq!["רבי שלמה יצחקי"@, "רבינו שלמה יצחקי"@]),
        ("רשב\"א"@, seq!["רבי שלמה בן אדרת"@]),
        ("ריטב\"א"@, seq!["רבי יום טוב בן אברהם"@]),
        ("רשב\"ם"@, seq!["רבי שמואל בן מאיר"@]),
        ("ראב\"ד"@, seq!["רבי אברהם בן דוד"@]),
        ("רא\"ש"@, seq!["רבינו אשר"@]),
        ("ר\"ן"@, seq!["רבינו ניסים"@]),
        ("רי\"ף"@, seq!["רבי יצחק אלפסי"@]),
        ("מהרש\"א"@, seq!["מורנו הרב שמואל אליעזר"@]),
        ("מהר\"ם"@, seq!["מורנו הרב מאיר"@]),
        ("מהרש\"ל"@, seq!["מורנו הרב שלמה לוריא"@]),
        ("גר\"א"@, seq!["הגאון רבי אליהו"@, "גאון רבי אליהו"@]),
        ("חת\"ם סופר"@, seq!["חתם סופר"@]),
        ("אדמו\"ר"@, seq!["אדוננו מורנו ורבינו"@]),
        ("רמ\"א"@, seq!["רבי משה איסרליש"@]),
        ("שך"@, seq!["שפתי כהן"@]),
        ("הקב\"ה"@, seq!["הקדוש ברוך הוא"@]),
        ("הש\"י"@, seq!["השם יתברך"@]),
        ("ב\"ה"@, seq!["ברוך השם"@, "בית הלל"@]),
        ("ז\"ל"@, seq!["זכרונו לברכה"@]),
        ("זצ\"ל"@, seq!["זכר צדיק לברכה"@]),
        ("שליט\"א"@, seq!["שיחיה לאורך ימים טובים אמן"@]),
        ("ע\"ה"@, seq!["עליו השלום"@]),
        ("וכו'"@, seq!["וכולי"@]),
        ("וגו'"@, seq!["וגומר"@]),
        ("כמ\"ש"@, seq!["כמו שכתוב"@, "כמו שאמר"@]),
        ("אחז\"ל"@, seq!["אמרו חכמינו זכרונם לברכה"@]),
        ("חז\"ל"@, seq!["חכמינו זכרונם לברכה"@]),
        ("ע\"פ"@, seq!["על פי"@]),
        ("ע\"י"@, seq!["על ידי"@]),
        ("עי\"ז"@, seq!["על ידי זה"@]),
        ("עי'"@, seq!["עיין"@]),
        ("ע\"ש"@, seq!["עיין שם"@]),
        ("ד\"ה"@, seq!["דיבור המתחיל"@]),
        ("ס\"ד"@, seq!["סלקא דעתך"@]),
        ("ג\"כ"@, seq!["גם כן"@]),
        ("משא\"כ"@, seq!["מה שאין כן"@]),
        ("אח\"כ"@, seq!["אחר כך"@]),
        ("ולפ\"ז"@, seq!["ולפי זה"@]),
        ("עוה\"ז"@, seq!["העולם הזה"@]),
        ("עוה\"ב"@, seq!["העולם הבא"@]),
        ("עש\"ק"@, seq!["ערב שבת קודש"@]),
        ("שב\"ק"@, seq!["שבת קודש"@]),
        ("ר\"ה"@, seq!["ראש השנה"@]),
        ("יו\"ט"@, seq!["יום טוב"@]),
        ("יו\"כ"@, seq!["יום כיפור"@, "יום הכיפורים"@]),
        ("ר\"ח"@, seq!["ראש חודש"@]),
        ("ק\"ש"@, seq!["קריאת שמע"@]),
        ("ת\"ת"@, seq!["תלמוד תורה"@]),
        ("בנ\"י"@, seq!["בני ישראל"@]),
        ("ארה\"ק"@, seq!["ארץ הקודש"@]),
        ("בעה\"ב"@, seq!["בעל הבית"@]),
        ("ב\"ד"@, seq!["בית דין"@]),
        ("בי\"ד"@, seq!["בית דין"@]),
        ("ד\"ת"@, seq!["דברי תורה"@]),
        ("ל\"ת"@, seq!["לא תעשה"@]),
        ("מ\"ע"@, seq!["מצות עשה"@]),
        ("פ\"ד"@, seq!["פרק ד"@]),
        ("סי'"@, seq!["סימן"@]),
        ("סע'"@, seq!["סעיף"@]),
        ("הל'"@, seq!["הלכות"@]),
        ("פ'"@, seq!["פרשת"@, "פרק"@]),
        ("מס'"@, seq!["מסכת"@]),
        ("דף"@, seq!["דף"@]),
    ]
}

/// The shipped table.
pub fn abbreviations() -> (t: AbbreviationTable)
    ensures
        t@ == shipped_entries(),
{
    let entries: Vec<Entry> = vec![
        ("שו\"ע", vec!["שולחן ערוך", "שלחן ערוך", "ש\"ע"]),
        ("או\"ח", vec!["אורח חיים"]),
        ("יו\"ד", vec!["יורה דעה"]),
        ("אה\"ע", vec!["אבן העזר"]),
        ("חו\"מ", vec!["חושן משפט"]),
        ("מ\"ב", vec!["משנה ברורה"]),
        ("ב\"י", vec!["בית יוסף"]),
        ("ט\"ז", vec!["טורי זהב"]),
        ("ש\"ך", vec!["שפתי כהן"]),
        ("מג\"א", vec!["מגן אברהם"]),
        ("פמ\"ג", vec!["פרי מגדים"]),
        ("ערוה\"ש", vec!["ערוך השולחן", "ערוך השלחן"]),
        ("קצוה\"ח", vec!["קצות החושן"]),
        ("נתיה\"מ", vec!["נתיבות המשפט"]),
        ("שעה\"צ", vec!["שער הציון"]),
        ("בה\"ל", vec!["ביאור הלכה"]),
        ("מ\"ת", vec!["משנה תורה", "יד החזקה"]),
        ("סמ\"ג", vec!["ספר מצוות גדול"]),
        ("סמ\"ק", vec!["ספר מצוות קטן"]),
        ("תוס'", vec!["תוספות"]),
        ("גמ'", vec!["גמרא"]),
        ("מתני'", vec!["מתניתין"]),
        ("ברייתא", vec!["ברייתות"]),
        ("ירו'", vec!["ירושלמי", "תלמוד ירושלמי"]),
        ("בבלי", vec!["תלמוד בבלי"]),
        ("מדר\"ר", vec!["מדרש רבה"]),
        ("ילק\"ש", vec!["ילקוט שמעוני"]),
        ("שו\"ת", vec!["שאלות ותשובות"]),
        ("רמב\"ם", vec!["רבינו משה בן מיימון", "רבי משה בן מימון"]),
        ("רמב\"ן", vec!["רבינו משה בן נחמן", "רבי משה בן נחמן"]),
        ("רש\"י", vec!["רבי שלמה יצחקי", "רבינו שלמה יצחקי"]),
        ("רשב\"א", vec!["רבי שלמה בן אדרת"]),
        ("ריטב\"א", vec!["רבי יום טוב בן אברהם"]),
        ("רשב\"ם", vec!["רבי שמואל בן מאיר"]),
        ("ראב\"ד", vec!["רבי אברהם בן דוד"]),
        ("רא\"ש", vec!["רבינו אשר"]),
        ("ר\"ן", vec!["רבינו ניסים"]),
        ("רי\"ף", vec!["רבי יצחק אלפסי"]),
        ("מהרש\"א", vec!["מורנו הרב שמואל אליעזר"]),
        ("מהר\"ם", vec!["מורנו הרב מאיר"]),
        ("מהרש\"ל", vec!["מורנו הרב שלמה לוריא"]),
        ("גר\"א", vec!["הגאון רבי אליהו", "גאון רבי אליהו"]),
        ("חת\"ם סופר", vec!["חתם סופר"]),
        ("אדמו\"ר", vec!["אדוננו מורנו ורבינו"]),
        ("רמ\"א", vec!["רבי משה איסרליש"]),
        ("שך", vec!["שפתי כהן"]),
        ("הקב\"ה", vec!["הקדוש ברוך הוא"]),
        ("הש\"י", vec!["השם יתברך"]),
        ("ב\"ה", vec!["ברוך השם", "בית הלל"]),
        ("ז\"ל", vec!["זכרונו לברכה"]),
        ("זצ\"ל", vec!["זכר צדיק לברכה"]),
        ("שליט\"א", vec!["שיחיה לאורך ימים טובים אמן"]),
        ("ע\"ה", vec!["עליו השלום"]),
        ("וכו'", vec!["וכולי"]),
        ("וגו'", vec!["וגומר"]),
        ("כמ\"ש", vec!["כמו שכתוב", "כמו שאמר"]),
        ("אחז\"ל", vec!["אמרו חכמינו זכרונם לברכה"]),
        ("חז\"ל", vec!["חכמינו זכרונם לברכה"]),
        ("ע\"פ", vec!["על פי"]),
        ("ע\"י", vec!["על ידי"]),
        ("עי\"ז", vec!["על ידי זה"]),
        ("עי'", vec!["עיין"]),
        ("ע\"ש", vec!["עיין שם"]),
        ("ד\"ה", vec!["דיבור המתחיל"]),
        ("ס\"ד", vec!["סלקא דעתך"]),
        ("ג\"כ", vec!["גם כן"]),
        ("משא\"כ", vec!["מה שאין כן"]),
        ("אח\"כ", vec!["אחר כך"]),
        ("ולפ\"ז", vec!["ולפי זה"]),
        ("עוה\"ז", vec!["העולם הזה"]),
        ("עוה\"ב", vec!["העולם הבא"]),
        ("עש\"ק", vec!["ערב שבת קודש"]),
        ("שב\"ק", vec!["שבת קודש"]),
        ("ר\"ה", vec!["ראש השנה"]),
        ("יו\"ט", vec!["יום טוב"]),
        ("יו\"כ", vec!["יום כיפור", "יום הכיפורים"]),
        ("ר\"ח", vec!["ראש חודש"]),
        ("ק\"ש", vec!["קריאת שמע"]),
        ("ת\"ת", vec!["תלמוד תורה"]),
        ("בנ\"י", vec!["בני ישראל"]),
        ("ארה\"ק", vec!["ארץ הקודש"]),
        ("בעה\"ב", vec!["בעל הבית"]),
        ("ב\"ד", vec!["בית דין"]),
        ("בי\"ד", vec!["בית דין"]),
        ("ד\"ת", vec!["דברי תורה"]),
        ("ל\"ת", vec!["לא תעשה"]),
        ("מ\"ע", vec!["מצות עשה"]),
        ("פ\"ד", vec!["פרק ד"]),
        ("סי'", vec!["סימן"]),
        ("סע'", vec!["סעיף"]),
        ("הל'", vec!["הלכות"]),
        ("פ'", vec!["פרשת", "פרק"]),
        ("מס'", vec!["מסכת"]),
        ("דף", vec!["דף"]),
    ];
    let t = AbbreviationTable::new(entries);
    assert(t@ =~~= shipped_entries());
    t
}

/// [`AbbreviationTable::expansions_of`] against the shipped table.
pub fn expansions_of(term: &str) -> (out: Vec<String>)
    ensures
        strings(out@) == expansions(shipped_entries(), term@),
{
    abbreviations().expansions_of(term)
}

/// Whether text is one of a table's own strings: an abbreviation or one of
/// its long forms.
pub open spec fn in_table(t: Seq<(Seq<char>, Seq<Seq<char>>)>, x: Seq<char>) -> bool {
    exists|e: int, k: int|
        0 <= e < t.len() && (x == t[e].0 || (0 <= k < t[e].1.len() && x == #[trigger] t[e].1[k]))
}

proof fn lemma_kept(c: Seq<Seq<char>>, key: Seq<char>)
    ensures
        forall|x: Seq<char>| #[trigger] kept(c, key).contains(x) <==> (c.contains(x) && normalized(x) != key),
        forall|i: int, j: int| 0 <= i < j < kept(c, key).len() ==> kept(c, key)[i] != kept(c, key)[j],
    decreases c.len(),
{
    if c.len() > 0 {
        let d = c.drop_last();
        lemma_kept(d, key);
        let p = kept(d, key);
        let x0 = c.last();
        assert(kept(c, key) == offer(p, x0, key));
        assert forall|x: Seq<char>| #[trigger] kept(c, key).contains(x) <==> (c.contains(x) && normalized(x) != key) by {
            if kept(c, key).contains(x) {
                if p.contains(x) {
                    let i = choose|i: int| 0 <= i < d.len() && d[i] == x;
                    assert(c[i] == x);
                } else {
                    assert(c[c.len() - 1] == x);
                }
            }
            if c.contains(x) && normalized(x) != key {
                let i = choose|i: int| 0 <= i < c.len() && c[i] == x;
                if i < d.len() {
                    assert(d[i] == x);
                    assert(d.contains(x));
                    assert(p.contains(x));
                    if !(normalized(x0) == key || p.contains(x0)) {
                        let j = choose|j: int| 0 <= j < p.len() && p[j] == x;
                        assert(p.push(x0)[j] == x);
                    }
                } else if !p.contains(x0) {
                    assert(p.push(x0)[p.len() as int] == x);
                }
            }
        }
    }
}

proof fn lemma_entry_hits(short: Seq<char>, longs: Seq<Seq<char>>, key: Seq<char>, n: int)
    requires
        0 <= n <= longs.len(),
    ensures
        forall|k: int| 0 <= k < n && normalized(short) == key ==> entry_hits(short, longs, key, n).contains(#[trigger] longs[k]),
        (exists|k: int| 0 <= k < n && normalized(#[trigger] longs[k]) == key) ==> entry_hits(short, longs, key, n).contains(short),
        forall|x: Seq<char>| #[trigger] entry_hits(short, longs, key, n).contains(x) ==> x == short || exists|k: int|
            0 <= k < n && x == longs[k],
    decreases n,
{
    if n > 0 {
        lemma_entry_hits(short, longs, key, n - 1);
        let p0 = entry_hits(short, longs, key, n - 1);
        let p1 = if normalized(short) == key {
            p0.push(longs[n - 1])
        } else {
            p0
        };
        let h = entry_hits(short, longs, key, n);
        assert forall|x: Seq<char>| p0.contains(x) implies h.contains(x) by {
            let i = choose|i: int| 0 <= i < p0.len() && p0[i] == x;
            assert(p1[i] == x);
            if normalized(longs[n - 1]) == key {
                assert(p1.push(short)[i] == x);
            }
        }
        if normalized(short) == key {
            assert(p1[p0.len() as int] == longs[n - 1]);
            if normalized(longs[n - 1]) == key {
                assert(p1.push(short)[p0.len() as int] == longs[n - 1]);
            }
        }
        if normalized(longs[n - 1]) == key {
            assert(p1.push(short)[p1.len() as int] == short);
        }
        assert forall|x: Seq<char>| #[trigger] h.contains(x) implies x == short || exists|k: int| 0 <= k < n && x == longs[k] by {
            let i = choose|i: int| 0 <= i < h.len() && h[i] == x;
            if i < p0.len() {
                assert(h[i] == p0[i]);
                assert(p0.contains(x));
            } else if normalized(short) == key && i == p0.len() {
                assert(x == longs[n - 1]);
            }
        }
    }
}

proof fn lemma_table_hits(t: Seq<(Seq<char>, Seq<Seq<char>>)>, key: Seq<char>, n: int)
    requires
        0 <= n <= t.len(),
    ensures
        forall|e: int, k: int| 0 <= e < n && 0 <= k < t[e].1.len() && normalized(t[e].0) == key ==> table_hits(t, key, n).contains(#[trigger] t[e].1[k]),
        forall|e: int, k: int| 0 <= e < n && 0 <= k < t[e].1.len() && normalized(#[trigger] t[e].1[k]) == key ==> table_hits(t, key, n).contains(t[e].0),
        forall|x: Seq<char>| #[trigger] table_hits(t, key, n).contains(x) ==> in_table(t, x),
    decreases n,
{
    if n > 0 {
        lemma_table_hits(t, key, n - 1);
        let p = table_hits(t, key, n - 1);
        let row = t[n - 1];
        lemma_entry_hits(row.0, row.1, key, row.1.len() as int);
        let q = entry_hits(row.0, row.1, key, row.1.len() as int);
        let h = p + q;
        assert(table_hits(t, key, n) == h);
        assert forall|x: Seq<char>| p.contains(x) implies h.contains(x) by {
            let i = choose|i: int| 0 <= i < p.len() && p[i] == x;
            assert(h[i] == x);
        }
        assert forall|x: Seq<char>| q.contains(x) implies h.contains(x) by {
            let i = choose|i: int| 0 <= i < q.len() && q[i] == x;
            assert(h[p.len() + i] == x);
        }
        assert forall|e: int, k: int| 0 <= e < n && 0 <= k < t[e].1.len() && normalized(#[trigger] t[e].1[k]) == key implies h.contains(t[e].0) by {
            if e == n - 1 {
                assert(row.1[k] == t[e].1[k]);
            }
        }
        assert forall|x: Seq<char>| #[trigger] h.contains(x) implies in_table(t, x) by {
            let i = choose|i: int| 0 <= i < h.len() && h[i] == x;
            if i < p.len() {
                assert(p[i] == x);
                assert(p.contains(x));
            } else {
                assert(q[i - p.len()] == x);
                assert(q.contains(x));
                if x == row.0 {
                    assert(x == t[n - 1].0);
                } else {
                    let k = choose|k: int| 0 <= k < row.1.len() && x == row.1[k];
                    assert(x == t[n - 1].1[k]);
                }
            }
        }
    }
}

/// A table reads both ways: a long form is offered for its abbreviation,
/// and the abbreviation for the long form, wherever the two do not share a
/// normal form.
pub proof fn lemma_expansions_two_way(t: Seq<(Seq<char>, Seq<Seq<char>>)>, e: int, k: int)
    requires
        0 <= e < t.len(),
        0 <= k < t[e].1.len(),
        normalized(t[e].0) != normalized(t[e].1[k]),
    ensures
        expansions(t, t[e].0).contains(t[e].1[k]),
        expansions(t, t[e].1[k]).contains(t[e].0),
{
    let short = t[e].0;
    let long = t[e].1[k];
    crate::hebrew::normalize::lemma_normalize_idempotent(short);
    crate::hebrew::normalize::lemma_normalize_idempotent(long);
    lemma_table_hits(t, normalized(short), t.len() as int);
    lemma_table_hits(t, normalized(long), t.len() as int);
    lemma_kept(table_hits(t, normalized(short), t.len() as int), normalized(short));
    lemma_kept(table_hits(t, normalized(long), t.len() as int), normalized(long));
}

/// What a table offers for a term: strings of the table itself, each once,
/// none with the term's own normal form; and it depends on the term only
/// through its normal form.
pub proof fn lemma_expansions_shape(t: Seq<(Seq<char>, Seq<Seq<char>>)>, term: Seq<char>, other: Seq<char>)
    ensures
        forall|x: Seq<char>| #[trigger] expansions(t, term).contains(x) ==> in_table(t, x) && normalized(x)
            != normalized(term),
        forall|i: int, j: int|
            0 <= i < j < expansions(t, term).len() ==> expansions(t, term)[i] != expansions(t, term)[j],
        normalized(other) == normalized(term) ==> expansions(t, other) == expansions(t, term),
{
    lemma_table_hits(t, normalized(term), t.len() as int);
    lemma_kept(table_hits(t, normalized(term), t.len() as int), normalized(term));
}

} // verus!
