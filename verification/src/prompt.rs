//! The prompt builder: assembles the instruction prompt for a fix request
//! from the error report and the original content.

use vstd::prelude::*;
use vstd::string::StrSliceExecFns;
use vstd::string::StringSliceAdditionalSpecFns;
use crate::stages::FormatKind;
use crate::text::append_bytes;
use crate::text::copy_bytes;
use crate::text::join_spec;
use crate::text::lemma_join_push;

verus! {

/// One itemized syntax error of the report.
pub struct ErrorItem {
    pub line: Option<u32>,
    pub column: Option<u32>,
    pub message: Vec<u8>,
}

/// The mathematical value of an `ErrorItem`.
pub ghost struct ErrorItemView {
    pub line: Option<u32>,
    pub column: Option<u32>,
    pub message: Seq<u8>,
}

impl View for ErrorItem {
    type V = ErrorItemView;

    open spec fn view(&self) -> ErrorItemView {
        ErrorItemView { line: self.line, column: self.column, message: self.message@ }
    }
}

impl DeepView for ErrorItem {
    type V = ErrorItemView;

    open spec fn deep_view(&self) -> ErrorItemView {
        self.view()
    }
}

/// A fix request's error report: the target format, a summary message, and
/// optionally the itemized errors.
pub struct ErrorReport {
    pub kind: FormatKind,
    pub summary: Vec<u8>,
    pub items: Option<Vec<ErrorItem>>,
}

/// The mathematical value of an `ErrorReport`.
pub ghost struct ErrorReportView {
    pub kind: FormatKind,
    pub summary: Seq<u8>,
    pub items: Option<Seq<ErrorItemView>>,
}

impl View for ErrorReport {
    type V = ErrorReportView;

    open spec fn view(&self) -> ErrorReportView {
        ErrorReportView {
            kind: self.kind,
            summary: self.summary@,
            items: match self.items {
                Some(v) => Some(v.deep_view()),
                None => None,
            },
        }
    }
}

/// The shortest decimal numeral for `n`.
pub open spec fn dec_rep(n: nat) -> Seq<u8>
    decreases n,
{
    if n < 10 {
        seq![(n + 48) as u8]
    } else {
        dec_rep(n / 10).push((n % 10 + 48) as u8)
    }
}

/// The name of a format kind, as it appears in prompts.
pub open spec fn kind_bytes(k: FormatKind) -> Seq<u8> {
    match k {
        FormatKind::Json => "JSON".spec_bytes(),
        FormatKind::Xml => "XML".spec_bytes(),
    }
}

/// One line of the error list: `Line <n>: <message>` when a line number is
/// present, else the bare message.
pub open spec fn error_line_spec(it: ErrorItemView) -> Seq<u8> {
    match it.line {
        Some(n) => "Line ".spec_bytes() + dec_rep(n as nat) + ": ".spec_bytes() + it.message,
        None => it.message,
    }
}

/// The error list of a report: its itemized errors one per line, or the
/// summary message when no itemized errors exist.
pub open spec fn error_list_spec(r: ErrorReportView) -> Seq<u8> {
    match r.items {
        Some(items) => join_spec(
            items.map_values(|it: ErrorItemView| error_line_spec(it)),
        ),
        None => r.summary,
    }
}

/// The instruction prompt: names the target format, lists the errors, embeds
/// the content verbatim, and demands complete untruncated output.
pub open spec fn prompt_spec(kind: FormatKind, errors: Seq<u8>, content: Seq<u8>) -> Seq<u8> {
    "Fix the syntax errors in this ".spec_bytes() + kind_bytes(kind)
        + ". Output ONLY the corrected ".spec_bytes() + kind_bytes(kind)
        + " with NO explanations.\n\nErrors to fix:\n".spec_bytes() + errors
        + "\n\nIMPORTANT: You MUST output the ENTIRE corrected content from start to finish. Do not truncate or summarize.\n\nContent:\n".spec_bytes()
        + content + "\n\nOutput the complete fixed ".spec_bytes() + kind_bytes(kind)
        + " now:".spec_bytes()
}

/// Appends the bytes of `s` to `out`.
fn append_str(out: &mut Vec<u8>, s: &str)
    ensures
        final(out)@ == old(out)@ + s.spec_bytes(),
{
    let v = s.as_bytes_vec();
    append_bytes(out, &v);
}

/// Appends the format kind's name to `out`.
fn append_kind(out: &mut Vec<u8>, k: FormatKind)
    ensures
        final(out)@ == old(out)@ + kind_bytes(k),
{
    match k {
        FormatKind::Json => append_str(out, "JSON"),
        FormatKind::Xml => append_str(out, "XML"),
    }
}

/// Appends the decimal numeral for `n` to `out`.
fn push_dec(out: &mut Vec<u8>, n: u32)
    ensures
        final(out)@ == old(out)@ + dec_rep(n as nat),
    decreases n,
{
    if n < 10 {
        out.push((n as u8) + 48);
        proof {
            assert(out@ =~= old(out)@ + dec_rep(n as nat));
        }
    } else {
        push_dec(out, n / 10);
        out.push((n % 10) as u8 + 48);
        proof {
            assert((n / 10) as nat == (n as nat) / 10);
            assert((n % 10) as nat == (n as nat) % 10);
            assert(out@ =~= old(out)@ + dec_rep(n as nat));
        }
    }
}

/// Appends one error line to `out`.
fn append_error_line(out: &mut Vec<u8>, it: &ErrorItem)
    ensures
        final(out)@ == old(out)@ + error_line_spec(it@),
{
    match it.line {
        Some(n) => {
            append_str(out, "Line ");
            push_dec(out, n);
            append_str(out, ": ");
            append_bytes(out, &it.message);
            proof {
                assert(out@ =~= old(out)@ + error_line_spec(it@));
            }
        },
        None => {
            append_bytes(out, &it.message);
        },
    }
}

/// Builds the error list of a report: every itemized error, one per line,
/// formatted as `Line <n>: <message>` when a line number is present; the
/// summary message when no itemized errors exist.
pub fn build_error_list(report: &ErrorReport) -> (r: Vec<u8>)
    ensures
        r@ == error_list_spec(report@),
{
    match &report.items {
        Some(items) => {
            let ghost dv = items.deep_view();
            let ghost f = |it: ErrorItemView| error_line_spec(it);
            let mut out: Vec<u8> = Vec::new();
            let mut i: usize = 0;
            proof {
                assert(dv.take(0).map_values(f) =~= Seq::<Seq<u8>>::empty());
            }
            while i < items.len()
                invariant
                    i <= items.len(),
                    dv == items.deep_view(),
                    f == (|it: ErrorItemView| error_line_spec(it)),
                    out@ == join_spec(dv.take(i as int).map_values(f)),
                decreases items.len() - i,
            {
                let ghost pre = out@;
                if i > 0 {
                    out.push(10);
                }
                append_error_line(&mut out, &items[i]);
                proof {
                    let mapped = dv.take(i as int).map_values(f);
                    assert(dv.take(i + 1).map_values(f) =~= mapped.push(f(dv[i as int])));
                    lemma_join_push(mapped, f(dv[i as int]));
                    assert(items@[i as int]@ == dv[i as int]);
                    assert(f(dv[i as int]) == error_line_spec(dv[i as int]));
                    assert(mapped.len() == i);
                    if i > 0 {
                        assert(out@ =~= join_spec(mapped) + seq![10u8] + f(dv[i as int]));
                    } else {
                        assert(out@ =~= f(dv[0]));
                    }
                }
                i = i + 1;
            }
            proof {
                assert(dv.take(i as int) =~= dv);
            }
            out
        },
        None => copy_bytes(&report.summary),
    }
}

/// Builds the instruction prompt for a fix request from the report and the
/// original content.
pub fn build_prompt(report: &ErrorReport, content: &Vec<u8>) -> (r: Vec<u8>)
    ensures
        r@ == prompt_spec(report.kind, error_list_spec(report@), content@),
{
    let errors = build_error_list(report);
    let mut out: Vec<u8> = Vec::new();
    append_str(&mut out, "Fix the syntax errors in this ");
    append_kind(&mut out, report.kind);
    append_str(&mut out, ". Output ONLY the corrected ");
    append_kind(&mut out, report.kind);
    append_str(&mut out, " with NO explanations.\n\nErrors to fix:\n");
    append_bytes(&mut out, &errors);
    append_str(
        &mut out,
        "\n\nIMPORTANT: You MUST output the ENTIRE corrected content from start to finish. Do not truncate or summarize.\n\nContent:\n",
    );
    append_bytes(&mut out, content);
    append_str(&mut out, "\n\nOutput the complete fixed ");
    append_kind(&mut out, report.kind);
    append_str(&mut out, " now:");
    proof {
        assert(out@ =~= prompt_spec(report.kind, error_list_spec(report@), content@));
    }
    out
}

} // verus!
