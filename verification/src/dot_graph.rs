//! Graphviz attributes of the nodes and edges of the debug graphs: `label = ..., attr, ... `.
use vstd::prelude::*;

verus! {

/// `char::is_whitespace`: the Unicode `White_Space` property.
pub open spec fn is_whitespace_char(c: char) -> bool {
    let x = c as u32;
    ||| 0x09 <= x <= 0x0D
    ||| x == 0x20
    ||| x == 0x85
    ||| x == 0xA0
    ||| x == 0x1680
    ||| 0x2000 <= x <= 0x200A
    ||| x == 0x2028
    ||| x == 0x2029
    ||| x == 0x202F
    ||| x == 0x205F
    ||| x == 0x3000
}

/// Nothing but whitespace is left once trimmed.
pub open spec fn is_blank(s: Seq<char>) -> bool {
    forall|i: int| 0 <= i < s.len() ==> is_whitespace_char(#[trigger] s[i])
}

/// A sequence starting with a visible character is not blank.
pub proof fn lemma_not_blank(s: Seq<char>)
    requires
        s.len() > 0,
        !is_whitespace_char(s[0]),
    ensures
        !is_blank(s),
{
}

/// The items joined, `sep` between each two.
pub open spec fn join_with(items: Seq<Seq<char>>, sep: Seq<char>) -> Seq<char>
    decreases items.len(),
{
    if items.len() == 0 {
        Seq::empty()
    } else if items.len() == 1 {
        items[0]
    } else {
        join_with(items.drop_last(), sep) + sep + items.last()
    }
}

pub open spec fn label_prefix() -> Seq<char> {
    seq!['l', 'a', 'b', 'e', 'l', ' ', '=', ' ']
}

pub open spec fn comma_sep() -> Seq<char> {
    seq![',', ' ']
}

/// A label written as is: an HTML-like label, starting with `<`.
pub open spec fn is_html_label(label: Seq<char>) -> bool {
    label.len() > 0 && label[0] == '<'
}

/// How attributes are written: the label (as is when it starts with `<`, quoted when it is
/// not blank, left out otherwise), a comma when a label and other attributes are both present,
/// the other attributes joined by commas, and a final space.
pub open spec fn render_attrs(label: Seq<char>, others: Seq<Seq<char>>) -> Seq<char> {
    let head = if is_html_label(label) {
        label_prefix() + label
    } else if !is_blank(label) {
        label_prefix() + seq!['"'] + label + seq!['"']
    } else {
        Seq::empty()
    };
    let has_label = is_html_label(label) || !is_blank(label);
    head + (if has_label && others.len() > 0 {
        comma_sep()
    } else {
        Seq::empty()
    }) + join_with(others, comma_sep()) + seq![' ']
}

/// `<<b>label</b>>`.
pub open spec fn bold_label(label: Seq<char>) -> Seq<char> {
    seq!['<', '<', 'b', '>'] + label + seq!['<', '/', 'b', '>', '>']
}

/// Law: whatever the label and attributes, the rendering ends with a space.
pub proof fn law_render_ends_with_space(label: Seq<char>, others: Seq<Seq<char>>)
    ensures
        render_attrs(label, others).len() > 0,
        render_attrs(label, others).last() == ' ',
{
}

/// Law: with neither label nor attribute, the rendering is a single space.
pub proof fn law_render_nothing(label: Seq<char>)
    requires
        is_blank(label),
        !is_html_label(label),
    ensures
        render_attrs(label, Seq::empty()) == seq![' '],
{
    assert(join_with(Seq::<Seq<char>>::empty(), comma_sep()) =~= Seq::<char>::empty());
    assert(render_attrs(label, Seq::empty()) =~= seq![' ']);
}

/// Law: a bold label is an HTML label, so it is drawn as is, never quoted.
pub proof fn law_bold_label_is_html(label: Seq<char>, others: Seq<Seq<char>>)
    ensures
        is_html_label(bold_label(label)),
        render_attrs(bold_label(label), others).subrange(0, (label_prefix().len() + bold_label(label).len()) as int)
            == label_prefix() + bold_label(label),
{
    let r = render_attrs(bold_label(label), others);
    let h = label_prefix() + bold_label(label);
    assert(r.subrange(0, h.len() as int) =~= h);
}


/// The attributes of one node or edge: a label and other `key=value` attributes.
pub struct Attrs {
    label: String,
    others: Vec<String>,
}

/// `char::is_whitespace`, for the characters this property names.
pub fn is_whitespace(c: char) -> (r: bool)
    ensures
        r == is_whitespace_char(c),
{
    let x = c as u32;
    (0x09 <= x && x <= 0x0D) || x == 0x20 || x == 0x85 || x == 0xA0 || x == 0x1680 || (0x2000 <= x
        && x <= 0x200A) || x == 0x2028 || x == 0x2029 || x == 0x202F || x == 0x205F || x == 0x3000
}

/// Whether `s` trims down to nothing.
pub fn is_blank_str(s: &str) -> (r: bool)
    ensures
        r == is_blank(s@),
{
    let n = s.unicode_len();
    let mut i: usize = 0;
    while i < n
        invariant
            0 <= i <= n,
            n == s@.len(),
            forall|j: int| 0 <= j < i ==> is_whitespace_char(#[trigger] s@[j]),
        decreases n - i,
    {
        let c = s.get_char(i);
        if !is_whitespace(c) {
            return false;
        }
        i = i + 1;
    }
    true
}

impl Attrs {
    pub closed spec fn label_view(&self) -> Seq<char> {
        self.label@
    }

    pub closed spec fn others_view(&self) -> Seq<Seq<char>> {
        self.others@.map_values(|s: String| s@)
    }

    /// No label, no attribute.
    pub fn new() -> (r: Self)
        ensures
            r.label_view() == Seq::<char>::empty(),
            r.others_view() == Seq::<Seq<char>>::empty(),
    {
        let r = Attrs { label: String::new(), others: Vec::new() };
        assert(r.others_view() =~= Seq::<Seq<char>>::empty());
        r
    }

    /// Only a label.
    pub fn label(label: String) -> (r: Self)
        ensures
            r.label_view() == label@,
            r.others_view() == Seq::<Seq<char>>::empty(),
    {
        let r = Attrs { label, others: Vec::new() };
        assert(r.others_view() =~= Seq::<Seq<char>>::empty());
        r
    }

    /// Only a label, when `cond` holds; nothing otherwise.
    pub fn label_if(cond: bool, label: String) -> (r: Self)
        ensures
            r.label_view() == if cond {
                label@
            } else {
                Seq::<char>::empty()
            },
            r.others_view() == Seq::<Seq<char>>::empty(),
    {
        if cond {
            Self::label(label)
        } else {
            Self::new()
        }
    }

    /// The label in bold, unless it is empty.
    pub fn bold(self) -> (r: Self)
        ensures
            r.label_view() == if self.label_view().len() > 0 {
                bold_label(self.label_view())
            } else {
                self.label_view()
            },
            r.others_view() == self.others_view(),
    {
        let mut s = self;
        if s.label.as_str().unicode_len() > 0 {
            let mut b = String::from_str("<<b>");
            b.append(s.label.as_str());
            b.append("</b>>");
            proof {
                reveal_strlit("<<b>");
                reveal_strlit("</b>>");
                assert(b@ =~= bold_label(s.label@));
            }
            s.label = b;
        }
        s
    }

    /// Adds `attr` unless it is blank.
    pub fn with(self, attr: String) -> (r: Self)
        ensures
            r.label_view() == self.label_view(),
            r.others_view() == if is_blank(attr@) {
                self.others_view()
            } else {
                self.others_view().push(attr@)
            },
    {
        let mut s = self;
        if !is_blank_str(attr.as_str()) {
            let ghost attr_view = attr@;
            s.others.push(attr);
            assert(s.others_view() =~= self.others_view().push(attr_view));
        }
        s
    }

    /// Adds `attr` when `cond` holds and it is not blank.
    pub fn with_if(self, cond: bool, attr: String) -> (r: Self)
        ensures
            r.label_view() == self.label_view(),
            r.others_view() == if cond && !is_blank(attr@) {
                self.others_view().push(attr@)
            } else {
                self.others_view()
            },
    {
        if cond {
            self.with(attr)
        } else {
            self
        }
    }

    /// The attributes as Graphviz reads them (see `render_attrs`).
    pub fn to_string(&self) -> (r: String)
        ensures
            r@ == render_attrs(self.label_view(), self.others_view()),
    {
        let mut out = String::new();
        let label = self.label.as_str();
        let n = label.unicode_len();
        let is_html = n > 0 && label.get_char(0) == '<';
        let mut has_label = false;
        proof {
            reveal_strlit("label = ");
            reveal_strlit("\"");
            reveal_strlit(", ");
            reveal_strlit(" ");
        }
        if is_html {
            has_label = true;
            out.append("label = ");
            out.append(label);
        } else if !is_blank_str(label) {
            has_label = true;
            out.append("label = ");
            out.append("\"");
            out.append(label);
            out.append("\"");
        }
        if has_label && self.others.len() > 0 {
            out.append(", ");
        }
        let ghost head = out@;
        let mut i: usize = 0;
        while i < self.others.len()
            invariant
                0 <= i <= self.others@.len(),
                out@ == head + join_with(self.others_view().take(i as int), comma_sep()),
            decreases self.others@.len() - i,
        {
            let ghost prev = self.others_view().take(i as int);
            proof {
                assert(self.others_view().take(i + 1).drop_last() =~= prev);
            }
            if i > 0 {
                out.append(", ");
            }
            out.append(self.others[i].as_str());
            proof {
                reveal_strlit(", ");
                assert(", "@ =~= comma_sep());
                assert(self.others_view()[i as int] == self.others@[i as int]@);
                assert(self.others_view().take(i + 1).last() == self.others@[i as int]@);
                if i == 0 {
                    assert(self.others_view().take(1) =~= seq![self.others@[0]@]);
                }
                assert(out@ =~= head + join_with(self.others_view().take(i + 1), comma_sep()));
            }
            i = i + 1;
        }
        out.append(" ");
        proof {
            assert(self.others_view().take(self.others@.len() as int) =~= self.others_view());
            assert(label_prefix() =~= "label = "@);
            assert(out@ =~= render_attrs(self.label_view(), self.others_view()));
        }
        out
    }
}

impl Default for Attrs {
    fn default() -> (r: Self)
        ensures
            r.label_view() == Seq::<char>::empty(),
            r.others_view() == Seq::<Seq<char>>::empty(),
    {
        Attrs::new()
    }
}

} // verus!
