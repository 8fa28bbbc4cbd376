//! The compression settings the interface commits, and the checks a
//! compression request passes before it is queued.

use vstd::prelude::*;

use crate::archive::{CompressionFormat, CompressionLevel, CompressionOptions, ZipCompressionMethod};
use crate::localization::{localized, LocaleState};
use crate::paths::{ensure_archive_extension, views, with_archive_extension};
use crate::text::{chars_eq, chars_of, extend_str, string_of, trim, trimmed};
use crate::ui::{compression_format_label, format_label, localize_format, pairs_of, render, Language};

verus! {

/// The text of an optional password (empty when there is none).
pub open spec fn password_text(p: Option<String>) -> Seq<char> {
    match p {
        Some(s) => s@,
        None => Seq::empty(),
    }
}

/// Commits the choices of the compression settings panel: the level, the
/// thread count (at least one), the ZIP method (only for a format that has
/// one), the password (none when empty), the split volume size, and
/// encrypted file names (only with a password, for a format that can).
/// The format is left as it is (it is switched by `apply_compression_format`).
pub fn commit_compression_options(
    options: &mut CompressionOptions,
    level: CompressionLevel,
    zip_method: ZipCompressionMethod,
    thread_count: u32,
    password: String,
    split_volume_size: Option<u64>,
    encrypt_file_names: bool,
)
    ensures
        final(options).format == old(options).format,
        final(options).level == level,
        final(options).thread_count == (if thread_count >= 1 {
            thread_count
        } else {
            1
        }),
        final(options).zip_method == (if old(options).format == CompressionFormat::Zip {
            zip_method
        } else {
            old(options).zip_method
        }),
        final(options).password == (if password@.len() == 0 {
            None
        } else {
            Some(password)
        }),
        final(options).split_volume_size == split_volume_size,
        final(options).encrypt_file_names == (encrypt_file_names && password@.len() > 0
            && old(options).format == CompressionFormat::SevenZip),
        final(options).sfx == old(options).sfx,
{
    options.level = level;
    options.thread_count = if thread_count >= 1 {
        thread_count
    } else {
        1
    };
    if options.format.supports_zip_method() {
        options.zip_method = zip_method;
    }
    let has_password = password.as_str().unicode_len() > 0;
    options.password = if has_password {
        Some(password)
    } else {
        None
    };
    options.split_volume_size = split_volume_size;
    options.encrypt_file_names = encrypt_file_names && has_password
        && options.format.supports_encrypt_file_names();
}

/// What checking a compression request gives: the sources, the output
/// path and the settings to queue, or the message that stops it.
pub open spec fn compress_check(
    sources: Seq<Seq<char>>,
    exists: Seq<bool>,
    output: Seq<char>,
    options: CompressionOptions,
    confirm: Seq<char>,
    st: LocaleState,
) -> Result<(Seq<char>, CompressionOptions), Seq<char>> {
    let missing = first_false(exists, 0);
    let password = password_text(options.password);
    if sources.len() == 0 {
        Err(localized(st, "Pick files or folders to compress first."@, "请先选择待压缩的文件或文件夹。"@))
    } else if missing >= 0 {
        Err(
            render(
                localized(st, "Compression source not found: {source_path}"@, "未找到待压缩源：{source_path}"@),
                seq![("{source_path}"@, sources[missing])],
            ),
        )
    } else if trim(output).len() == 0 {
        Err(localized(st, "Choose the archive output path first."@, "请先选择压缩包输出路径。"@))
    } else if (password.len() > 0 || confirm.len() > 0) && password.len() == 0 {
        Err(
            localized(
                st,
                "Compression password is empty. Enter a password and confirm it before starting."@,
                "压缩密码为空。开始前请输入密码并再次确认。"@,
            ),
        )
    } else if (password.len() > 0 || confirm.len() > 0) && password != confirm {
        Err(localized(st, "Compression passwords do not match."@, "压缩密码两次输入不一致。"@))
    } else if password.len() > 0 && !(options.format == CompressionFormat::Zip || options.format
        == CompressionFormat::SevenZip) {
        Err(
            format_label(options.format) + " "@ + localized(
                st,
                "does not support password encryption in FastZIP."@,
                "当前在 FastZIP 中不支持密码加密。"@,
            ),
        )
    } else if password.len() > 0 && options.encrypt_file_names && options.format
        != CompressionFormat::SevenZip {
        Err(localized(st, "Only 7Z archives support encrypted file names."@, "只有 7Z 格式支持加密文件名。"@))
    } else {
        let settled = if password.len() == 0 {
            CompressionOptions { password: None, encrypt_file_names: false, ..options }
        } else {
            options
        };
        Ok((with_archive_extension(trim(output), options.format), settled))
    }
}

/// Passwords reach only formats that encrypt: a request with a non-empty
/// password is accepted only for ZIP or 7Z and only when the confirmation
/// repeats it, and then the settings queued keep that password; encrypted
/// file names with a password are accepted only for 7Z; a request
/// without a password is queued with neither a password nor encrypted
/// names.
pub proof fn law_compress_passwords(
    sources: Seq<Seq<char>>,
    exists: Seq<bool>,
    output: Seq<char>,
    options: CompressionOptions,
    confirm: Seq<char>,
    st: LocaleState,
)
    ensures
        ({
            let r = compress_check(sources, exists, output, options, confirm, st);
            let password = password_text(options.password);
            &&& r is Ok && password.len() > 0 ==> (options.format == CompressionFormat::Zip
                || options.format == CompressionFormat::SevenZip) && confirm == password
                && r->Ok_0.1.password == options.password
            &&& r is Ok && password.len() > 0 && options.encrypt_file_names ==> options.format
                == CompressionFormat::SevenZip
            &&& r is Ok && password.len() == 0 ==> r->Ok_0.1.password is None
                && !r->Ok_0.1.encrypt_file_names
            &&& password.len() > 0 && !(options.format == CompressionFormat::Zip || options.format
                == CompressionFormat::SevenZip) ==> r is Err
        }),
{
}

/// Index of the first `false` from `k` on, or `-1`.
pub open spec fn first_false(b: Seq<bool>, k: int) -> int
    decreases b.len() - k,
{
    if k < 0 || k >= b.len() {
        -1
    } else if !b[k] {
        k
    } else {
        first_false(b, k + 1)
    }
}

/// Checks a compression request before it is queued: there are sources
/// and each exists (`exists[i]` tells for `sources[i]`), there is an output
/// path (given the format's ending), a password is confirmed and usable
/// with the format. Gives the output path and the settings to queue (no
/// password and no encrypted names where the password is empty).
pub fn check_compress_request(
    sources: &[String],
    exists: &[bool],
    output_path: &str,
    options: CompressionOptions,
    password_confirm: &str,
    language: Language,
    state: &LocaleState,
) -> (r: Result<(String, CompressionOptions), String>)
    requires
        exists@.len() == sources@.len(),
    ensures
        match compress_check(views(sources@), exists@, output_path@, options, password_confirm@, *state) {
            Ok((out, o)) => r is Ok && r->Ok_0.0@ == out && r->Ok_0.1 == o,
            Err(e) => r is Err && r->Err_0@ == e,
        },
{
    if sources.len() == 0 {
        return Err(language.text(state, "Pick files or folders to compress first.", "请先选择待压缩的文件或文件夹。").to_string());
    }
    let mut k: usize = 0;
    while k < sources.len()
        invariant
            k <= sources@.len(),
            exists@.len() == sources@.len(),
            first_false(exists@, 0) == first_false(exists@, k as int),
        decreases sources@.len() - k,
    {
        if !exists[k] {
            let reps = vec![("{source_path}", sources[k].clone())];
            proof {
                assert(pairs_of(reps@) =~= seq![("{source_path}"@, views(sources@)[k as int])]);
            }
            return Err(localize_format(
                state,
                "Compression source not found: {source_path}",
                "未找到待压缩源：{source_path}",
                reps.as_slice(),
            ));
        }
        k = k + 1;
    }
    let out = trimmed(chars_of(output_path).as_slice());
    if out.len() == 0 {
        return Err(language.text(state, "Choose the archive output path first.", "请先选择压缩包输出路径。").to_string());
    }
    let password: Vec<char> = match &options.password {
        Some(p) => chars_of(p.as_str()),
        None => Vec::new(),
    };
    let confirm = chars_of(password_confirm);
    if password.len() > 0 || confirm.len() > 0 {
        if password.len() == 0 {
            return Err(language.text(
                state,
                "Compression password is empty. Enter a password and confirm it before starting.",
                "压缩密码为空。开始前请输入密码并再次确认。",
            ).to_string());
        }
        if !chars_eq(password.as_slice(), confirm.as_slice()) {
            return Err(language.text(state, "Compression passwords do not match.", "压缩密码两次输入不一致。").to_string());
        }
    }
    if password.len() > 0 && !options.format.supports_password_encryption() {
        let mut msg = chars_of(compression_format_label(options.format, language));
        extend_str(&mut msg, " ");
        extend_str(&mut msg, language.text(
            state,
            "does not support password encryption in FastZIP.",
            "当前在 FastZIP 中不支持密码加密。",
        ));
        return Err(string_of(msg.as_slice()));
    }
    if password.len() > 0 && options.encrypt_file_names && !options.format.supports_encrypt_file_names() {
        return Err(language.text(state, "Only 7Z archives support encrypted file names.", "只有 7Z 格式支持加密文件名。").to_string());
    }
    let format = options.format;
    let out_s = string_of(out.as_slice());
    let path = ensure_archive_extension(out_s.as_str(), format);
    let settled = if password.len() == 0 {
        CompressionOptions { password: None, encrypt_file_names: false, ..options }
    } else {
        options
    };
    Ok((path, settled))
}

} // verus!
