//! The commands on the search path, as the last source of the index.
//!
//! The other sources often know a tool only by its localized name, and some tools have
//! no entry in the start menu at all. So a table of well-known commands is merged into
//! the index: where a row of the same name is there already, it only gains the English
//! names as aliases and keeps its way of launching; a row is added only where there is
//! none and the command can be found on this machine. Full paths are kept, since icons
//! are extracted from files, and a command that cannot be found is left out, so that one
//! table serves every edition of the system.

use crate::entry::{rows, AppInfo, Row};
use crate::index::{has_key, index_name_key, keys_of, name_key, row_keys};
use crate::text::{
    ascii_lower_all, eq_ignore_ascii_case, has_char, holds_text, is_white_space, law_same_but_for_case,
    law_trimmed, plain_text, split, split_on, text_eq, trim, trimmed, view_opt, views,
};
use crate::winpath::{extension, extension_of, join, joined, law_joined_under_a_local_folder};
use vstd::prelude::*;

verus! {

/// A command. `name` is the name of a new row and the name by which a row that is there
/// already is recognized, so it is the name that Windows itself shows. `cmd` is looked up
/// on the search path: as it stands where it has an extension, else with each of the
/// executable extensions. The first alias is the most formal English name.
#[derive(Debug)]
pub struct CommandDef {
    pub name: &'static str,
    pub cmd: &'static str,
    pub aliases: &'static [&'static str],
}

/// The texts of a command.
#[verifier::ext_equal]
pub struct Command {
    pub name: Seq<char>,
    pub cmd: Seq<char>,
    pub aliases: Seq<Seq<char>>,
}

impl View for CommandDef {
    type V = Command;

    open spec fn view(&self) -> Command {
        Command {
            name: self.name@,
            cmd: self.cmd@,
            aliases: Seq::new(self.aliases@.len(), |i: int| self.aliases@[i]@),
        }
    }
}

/// The table of commands: those mostly known to other sources, the administration
/// tools, the system tools.
pub open spec fn command_table() -> Seq<Command> {
    seq![
        Command { name: "计算器"@, cmd: "calc"@, aliases: seq!["calculator"@, "calc"@] },
        Command { name: "记事本"@, cmd: "notepad"@, aliases: seq!["notepad"@] },
        Command { name: "画图"@, cmd: "mspaint"@, aliases: seq!["paint"@, "mspaint"@] },
        Command { name: "截图工具"@, cmd: "snippingtool"@, aliases: seq!["snippingtool"@, "screenshot"@] },
        Command { name: "Windows 终端"@, cmd: "wt"@, aliases: seq!["terminal"@, "wt"@] },
        Command { name: "任务管理器"@, cmd: "taskmgr"@, aliases: seq!["taskmgr"@, "task manager"@] },
        Command { name: "命令提示符"@, cmd: "cmd"@, aliases: seq!["cmd"@, "command prompt"@] },
        Command { name: "Windows PowerShell"@, cmd: "powershell"@, aliases: seq!["powershell"@, "pwsh"@] },
        Command { name: "注册表编辑器"@, cmd: "regedit"@, aliases: seq!["regedit"@, "registry"@] },
        Command { name: "文件资源管理器"@, cmd: "explorer"@, aliases: seq!["explorer"@] },
        Command { name: "控制面板"@, cmd: "control"@, aliases: seq!["control"@, "control panel"@] },
        Command { name: "设备管理器"@, cmd: "devmgmt.msc"@, aliases: seq!["devmgmt"@, "device manager"@, "devmgmt.msc"@] },
        Command { name: "磁盘管理"@, cmd: "diskmgmt.msc"@, aliases: seq!["diskmgmt"@, "disk management"@] },
        Command { name: "服务"@, cmd: "services.msc"@, aliases: seq!["services"@] },
        Command { name: "事件查看器"@, cmd: "eventvwr.msc"@, aliases: seq!["eventvwr"@] },
        Command { name: "计算机管理"@, cmd: "compmgmt.msc"@, aliases: seq!["compmgmt"@] },
        Command { name: "任务计划程序"@, cmd: "taskschd.msc"@, aliases: seq!["taskschd"@] },
        Command { name: "高级安全 Windows 防火墙"@, cmd: "wf.msc"@, aliases: seq!["wf.msc"@, "firewall"@] },
        Command { name: "证书管理器"@, cmd: "certmgr.msc"@, aliases: seq!["certmgr"@] },
        Command { name: "系统配置"@, cmd: "msconfig"@, aliases: seq!["msconfig"@] },
        Command { name: "系统信息"@, cmd: "msinfo32"@, aliases: seq!["msinfo32"@] },
        Command { name: "资源监视器"@, cmd: "resmon"@, aliases: seq!["resmon"@] },
        Command { name: "性能监视器"@, cmd: "perfmon"@, aliases: seq!["perfmon"@] },
        Command { name: "磁盘清理"@, cmd: "cleanmgr"@, aliases: seq!["cleanmgr"@] },
        Command { name: "磁盘碎片整理"@, cmd: "dfrgui"@, aliases: seq!["defrag"@, "dfrgui"@] },
        Command { name: "远程桌面连接"@, cmd: "mstsc"@, aliases: seq!["mstsc"@, "rdp"@] },
        Command { name: "DirectX 诊断工具"@, cmd: "dxdiag"@, aliases: seq!["dxdiag"@] },
        Command { name: "音量合成器"@, cmd: "sndvol"@, aliases: seq!["sndvol"@, "volume"@] },
        Command { name: "字符映射表"@, cmd: "charmap"@, aliases: seq!["charmap"@] },
        Command { name: "屏幕键盘"@, cmd: "osk"@, aliases: seq!["osk"@] },
        Command { name: "放大镜"@, cmd: "magnify"@, aliases: seq!["magnify"@] },
        Command { name: "步骤记录器"@, cmd: "psr"@, aliases: seq!["psr"@] },
        Command { name: "Windows 版本信息"@, cmd: "winver"@, aliases: seq!["winver"@, "about windows"@] },
        Command { name: "程序和功能"@, cmd: "appwiz.cpl"@, aliases: seq!["appwiz"@, "uninstall"@] },
        Command { name: "系统属性"@, cmd: "sysdm.cpl"@, aliases: seq!["sysdm"@] },
        Command { name: "网络连接"@, cmd: "ncpa.cpl"@, aliases: seq!["ncpa"@] },
        Command { name: "电源选项"@, cmd: "powercfg.cpl"@, aliases: seq!["powercfg"@] },
    ]
}

/// The table of commands.
pub fn commands() -> (r: &'static [CommandDef])
    ensures
        r@.len() == command_table().len(),
        forall|i: int| 0 <= i < r@.len() ==> (#[trigger] r@[i])@ == command_table()[i],
{
    let table: &'static [CommandDef] = &[
        CommandDef { name: "计算器", cmd: "calc", aliases: &["calculator", "calc"] },
        CommandDef { name: "记事本", cmd: "notepad", aliases: &["notepad"] },
        CommandDef { name: "画图", cmd: "mspaint", aliases: &["paint", "mspaint"] },
        CommandDef { name: "截图工具", cmd: "snippingtool", aliases: &["snippingtool", "screenshot"] },
        CommandDef { name: "Windows 终端", cmd: "wt", aliases: &["terminal", "wt"] },
        CommandDef { name: "任务管理器", cmd: "taskmgr", aliases: &["taskmgr", "task manager"] },
        CommandDef { name: "命令提示符", cmd: "cmd", aliases: &["cmd", "command prompt"] },
        CommandDef { name: "Windows PowerShell", cmd: "powershell", aliases: &["powershell", "pwsh"] },
        CommandDef { name: "注册表编辑器", cmd: "regedit", aliases: &["regedit", "registry"] },
        CommandDef { name: "文件资源管理器", cmd: "explorer", aliases: &["explorer"] },
        CommandDef { name: "控制面板", cmd: "control", aliases: &["control", "control panel"] },
        CommandDef { name: "设备管理器", cmd: "devmgmt.msc", aliases: &["devmgmt", "device manager", "devmgmt.msc"] },
        CommandDef { name: "磁盘管理", cmd: "diskmgmt.msc", aliases: &["diskmgmt", "disk management"] },
        CommandDef { name: "服务", cmd: "services.msc", aliases: &["services"] },
        CommandDef { name: "事件查看器", cmd: "eventvwr.msc", aliases: &["eventvwr"] },
        CommandDef { name: "计算机管理", cmd: "compmgmt.msc", aliases: &["compmgmt"] },
        CommandDef { name: "任务计划程序", cmd: "taskschd.msc", aliases: &["taskschd"] },
        CommandDef { name: "高级安全 Windows 防火墙", cmd: "wf.msc", aliases: &["wf.msc", "firewall"] },
        CommandDef { name: "证书管理器", cmd: "certmgr.msc", aliases: &["certmgr"] },
        CommandDef { name: "系统配置", cmd: "msconfig", aliases: &["msconfig"] },
        CommandDef { name: "系统信息", cmd: "msinfo32", aliases: &["msinfo32"] },
        CommandDef { name: "资源监视器", cmd: "resmon", aliases: &["resmon"] },
        CommandDef { name: "性能监视器", cmd: "perfmon", aliases: &["perfmon"] },
        CommandDef { name: "磁盘清理", cmd: "cleanmgr", aliases: &["cleanmgr"] },
        CommandDef { name: "磁盘碎片整理", cmd: "dfrgui", aliases: &["defrag", "dfrgui"] },
        CommandDef { name: "远程桌面连接", cmd: "mstsc", aliases: &["mstsc", "rdp"] },
        CommandDef { name: "DirectX 诊断工具", cmd: "dxdiag", aliases: &["dxdiag"] },
        CommandDef { name: "音量合成器", cmd: "sndvol", aliases: &["sndvol", "volume"] },
        CommandDef { name: "字符映射表", cmd: "charmap", aliases: &["charmap"] },
        CommandDef { name: "屏幕键盘", cmd: "osk", aliases: &["osk"] },
        CommandDef { name: "放大镜", cmd: "magnify", aliases: &["magnify"] },
        CommandDef { name: "步骤记录器", cmd: "psr", aliases: &["psr"] },
        CommandDef { name: "Windows 版本信息", cmd: "winver", aliases: &["winver", "about windows"] },
        CommandDef { name: "程序和功能", cmd: "appwiz.cpl", aliases: &["appwiz", "uninstall"] },
        CommandDef { name: "系统属性", cmd: "sysdm.cpl", aliases: &["sysdm"] },
        CommandDef { name: "网络连接", cmd: "ncpa.cpl", aliases: &["ncpa"] },
        CommandDef { name: "电源选项", cmd: "powercfg.cpl", aliases: &["powercfg"] },
    ];
    assert forall|i: int| 0 <= i < table@.len() implies (#[trigger] table@[i])@ == command_table()[i] by {
        assert(table@[i]@ =~= command_table()[i]);
    }
    table
}

/// Where commands are looked for: the folders of the search path in order, the
/// executable extensions in order, and those of the candidates that are files.
#[derive(Debug)]
pub struct CommandHost {
    pub dirs: Vec<String>,
    pub exts: Vec<String>,
    pub files: Vec<String>,
}

/// The texts of a command host.
pub struct Host {
    pub dirs: Seq<Seq<char>>,
    pub exts: Seq<Seq<char>>,
    pub files: Seq<Seq<char>>,
}

impl View for CommandHost {
    type V = Host;

    open spec fn view(&self) -> Host {
        Host { dirs: views(self.dirs@), exts: views(self.exts@), files: views(self.files@) }
    }
}

/// The file names to try for `cmd` in each folder.
pub open spec fn file_names(cmd: Seq<char>, exts: Seq<Seq<char>>) -> Seq<Seq<char>> {
    if extension_of(cmd) is Some {
        seq![cmd]
    } else {
        Seq::new(exts.len(), |i: int| cmd + exts[i])
    }
}

/// The file names under the folder `dir`.
pub open spec fn under(dir: Seq<char>, names: Seq<Seq<char>>) -> Seq<Seq<char>> {
    Seq::new(names.len(), |i: int| joined(dir, names[i]))
}

/// The file names under each of the folders, folder by folder.
pub open spec fn under_all(dirs: Seq<Seq<char>>, names: Seq<Seq<char>>) -> Seq<Seq<char>>
    decreases dirs.len(),
{
    if dirs.len() == 0 {
        Seq::empty()
    } else {
        under_all(dirs.drop_last(), names) + under(dirs.last(), names)
    }
}

/// The paths to try for `cmd`, in order. One that holds a separator is not looked up.
pub open spec fn candidates(cmd: Seq<char>, dirs: Seq<Seq<char>>, exts: Seq<Seq<char>>) -> Seq<
    Seq<char>,
> {
    if cmd.contains('\\') || cmd.contains('/') {
        seq![cmd]
    } else {
        under_all(dirs, file_names(cmd, exts))
    }
}

/// The first of the paths that is a file.
pub open spec fn first_file(paths: Seq<Seq<char>>, files: Seq<Seq<char>>) -> Option<Seq<char>>
    decreases paths.len(),
{
    if paths.len() == 0 {
        None
    } else if files.contains(paths[0]) {
        Some(paths[0])
    } else {
        first_file(paths.drop_first(), files)
    }
}

/// The full path of `cmd`.
pub open spec fn resolved(cmd: Seq<char>, host: Host) -> Option<Seq<char>> {
    first_file(candidates(cmd, host.dirs, host.exts), host.files)
}

fn names_for(cmd: &str, exts: &Vec<String>) -> (r: Vec<String>)
    ensures
        views(r@) == file_names(cmd@, views(exts@)),
{
    let mut out: Vec<String> = Vec::new();
    if extension(cmd).is_some() {
        out.push(cmd.to_owned());
        assert(views(out@) =~= seq![cmd@]);
        return out;
    }
    let mut i: usize = 0;
    while i < exts.len()
        invariant
            i <= exts@.len(),
            out@.len() == i,
            forall|j: int| 0 <= j < i ==> out@[j]@ == cmd@ + exts@[j]@,
        decreases exts.len() - i,
    {
        let mut name = cmd.to_owned();
        name.append(exts[i].as_str());
        out.push(name);
        i += 1;
    }
    assert(views(out@) =~= file_names(cmd@, views(exts@)));
    out
}

/// The paths to try for `cmd`, in order.
pub fn command_candidates(cmd: &str, dirs: &Vec<String>, exts: &Vec<String>) -> (r: Vec<String>)
    ensures
        views(r@) == candidates(cmd@, views(dirs@), views(exts@)),
{
    let mut out: Vec<String> = Vec::new();
    if has_char(cmd, '\\') || has_char(cmd, '/') {
        out.push(cmd.to_owned());
        assert(views(out@) =~= seq![cmd@]);
        return out;
    }
    let names = names_for(cmd, exts);
    let ghost all = views(dirs@);
    let ghost texts = views(names@);
    let mut i: usize = 0;
    assert(views(out@) =~= under_all(all.take(0), texts));
    while i < dirs.len()
        invariant
            all == views(dirs@),
            texts == views(names@),
            i <= dirs@.len(),
            views(out@) == under_all(all.take(i as int), texts),
        decreases dirs.len() - i,
    {
        let ghost before = views(out@);
        let ghost dir = dirs@[i as int]@;
        let mut k: usize = 0;
        assert(views(out@) =~= before + under(dir, texts.take(0)));
        while k < names.len()
            invariant
                texts == views(names@),
                i < dirs@.len(),
                dir == dirs@[i as int]@,
                k <= names@.len(),
                views(out@) == before + under(dir, texts.take(k as int)),
            decreases names.len() - k,
        {
            let ghost done = views(out@);
            out.push(join(dirs[i].as_str(), names[k].as_str()));
            k += 1;
            assert(views(out@) =~= done.push(joined(dir, texts[k - 1])));
            assert(under(dir, texts.take(k as int)) =~= under(dir, texts.take(k - 1)).push(
                joined(dir, texts[k - 1]),
            ));
            assert(views(out@) =~= before + under(dir, texts.take(k as int)));
        }
        assert(texts.take(texts.len() as int) =~= texts);
        assert(all.take(i + 1).drop_last() =~= all.take(i as int));
        assert(all.take(i + 1).last() == dir);
        i += 1;
    }
    assert(all.take(all.len() as int) =~= all);
    out
}

/// The full path of a command on the search path; `None` where it is not to be found.
pub fn resolve_on_path(cmd: &str, host: &CommandHost) -> (r: Option<String>)
    ensures
        view_opt(r) == resolved(cmd@, host@),
{
    let paths = command_candidates(cmd, &host.dirs, &host.exts);
    let ghost all = views(paths@);
    let mut i: usize = 0;
    assert(all.skip(0) =~= all);
    while i < paths.len()
        invariant
            all == views(paths@),
            all == candidates(cmd@, host@.dirs, host@.exts),
            i <= paths@.len(),
            first_file(all, host@.files) == first_file(all.skip(i as int), host@.files),
        decreases paths.len() - i,
    {
        assert(all.skip(i as int).drop_first() =~= all.skip(i + 1));
        if holds_text(&host.files, paths[i].as_str()) {
            return Some(paths[i].clone());
        }
        i += 1;
    }
    None
}

/// The parts of the list of executable extensions, where the environment gives none.
pub const DEFAULT_PATHEXT: &'static str = ".COM;.EXE;.BAT;.CMD";

/// The texts that are not blank, without the white space around them.
pub open spec fn trimmed_texts(list: Seq<Seq<char>>) -> Seq<Seq<char>>
    decreases list.len(),
{
    if list.len() == 0 {
        Seq::empty()
    } else {
        let before = trimmed_texts(list.drop_last());
        if trimmed(list.last()).len() > 0 {
            before.push(trimmed(list.last()))
        } else {
            before
        }
    }
}

/// The executable extensions of a `PATHEXT` value.
pub open spec fn extensions_in(raw: Option<Seq<char>>) -> Seq<Seq<char>> {
    match raw {
        Some(s) => trimmed_texts(split_on(s, ';')),
        None => trimmed_texts(split_on(DEFAULT_PATHEXT@, ';')),
    }
}

/// The executable extensions, from the value of `PATHEXT` where it is set.
pub fn pathext_list(raw: &Option<String>) -> (r: Vec<String>)
    ensures
        views(r@) == extensions_in(view_opt(*raw)),
{
    let pieces = match raw {
        Some(s) => split(s.as_str(), ';'),
        None => split(DEFAULT_PATHEXT, ';'),
    };
    let ghost all = views(pieces@);
    let mut out: Vec<String> = Vec::new();
    let mut i: usize = 0;
    assert(views(out@) =~= trimmed_texts(all.take(0)));
    while i < pieces.len()
        invariant
            all == views(pieces@),
            i <= pieces@.len(),
            views(out@) == trimmed_texts(all.take(i as int)),
        decreases pieces.len() - i,
    {
        let ghost before = views(out@);
        assert(all.take(i + 1).drop_last() =~= all.take(i as int));
        let t = trim(pieces[i].as_str());
        if !t.as_str().is_empty() {
            out.push(t);
            assert(views(out@) =~= before.push(t@));
        }
        i += 1;
    }
    assert(all.take(all.len() as int) =~= all);
    out
}

/// The folder of the app execution aliases under the local application-data folder.
pub open spec fn alias_folder(local: Seq<char>) -> Seq<char> {
    joined(joined(local, "Microsoft"@), "WindowsApps"@)
}

/// The folder of the app execution aliases, which some commands live in.
pub fn app_alias_dir(local: &str) -> (r: String)
    ensures
        r@ == alias_folder(local@),
{
    join(join(local, "Microsoft").as_str(), "WindowsApps")
}

/// The folders to look in: those of the search path, and the folder of the app execution
/// aliases where it is there, since the search path does not always hold it.
pub fn path_dirs(search_path: Vec<String>, local: &Option<String>, alias_dir_exists: bool) -> (r: Vec<
    String,
>)
    ensures
        views(r@) == if local is Some && alias_dir_exists {
            views(search_path@).push(alias_folder(local->0@))
        } else {
            views(search_path@)
        },
{
    let mut dirs = search_path;
    if let Some(p) = local {
        if alias_dir_exists {
            dirs.push(app_alias_dir(p.as_str()));
            assert(views(dirs@) =~= views(search_path@).push(alias_folder(p@)));
        }
    }
    dirs
}

/// Some alias is `alias`, in whatever case of letters.
pub open spec fn has_alias(aliases: Seq<Seq<char>>, alias: Seq<char>) -> bool {
    exists|i: int|
        0 <= i < aliases.len() && ascii_lower_all(#[trigger] aliases[i]) == ascii_lower_all(alias)
}

/// The aliases with each of `more` behind them that is not there yet.
pub open spec fn with_aliases(aliases: Seq<Seq<char>>, more: Seq<Seq<char>>) -> Seq<Seq<char>>
    decreases more.len(),
{
    if more.len() == 0 {
        aliases
    } else {
        let before = with_aliases(aliases, more.drop_last());
        if has_alias(before, more.last()) {
            before
        } else {
            before.push(more.last())
        }
    }
}

/// The place of the first of the keys that is `key`, or the number of keys.
pub open spec fn place_in(keys: Seq<Seq<char>>, key: Seq<char>) -> int
    decreases keys.len(),
{
    if keys.len() == 0 {
        0
    } else {
        let before = place_in(keys.drop_last(), key);
        if before < keys.len() - 1 || keys.last() == key {
            before
        } else {
            keys.len() as int
        }
    }
}

/// The place of the first row with this name key, or the number of rows.
pub open spec fn place_of(list: Seq<Row>, key: Seq<char>) -> int {
    place_in(row_keys(list), key)
}

/// The row for a command that no other source knows.
pub open spec fn command_row(c: Command, full: Seq<char>) -> Row {
    Row {
        name: c.name,
        comment: Some("系统命令"@),
        launch_path: full,
        target_path: full,
        icon: None,
        aliases: c.aliases,
    }
}

/// The rows with one command merged in, where `at` is the place of the row that stands for
/// it already, or the number of rows.
pub open spec fn merged_at(list: Seq<Row>, at: int, c: Command, host: Host) -> Seq<Row> {
    if at < list.len() {
        list.update(at, Row { aliases: with_aliases(list[at].aliases, c.aliases), ..list[at] })
    } else {
        match resolved(c.cmd, host) {
            Some(full) => list.push(command_row(c, full)),
            None => list,
        }
    }
}

/// The rows with one command merged in.
pub open spec fn merged(list: Seq<Row>, c: Command, host: Host) -> Seq<Row> {
    merged_at(list, place_of(list, name_key(c.name)), c, host)
}

/// The rows with all commands of a table merged in, in order.
pub open spec fn merged_all(list: Seq<Row>, table: Seq<Command>, host: Host) -> Seq<Row>
    decreases table.len(),
{
    if table.len() == 0 {
        list
    } else {
        merged(merged_all(list, table.drop_last(), host), table.last(), host)
    }
}

fn knows_alias(aliases: &Vec<String>, alias: &str) -> (r: bool)
    ensures
        r == has_alias(views(aliases@), alias@),
{
    let mut i: usize = 0;
    while i < aliases.len()
        invariant
            i <= aliases@.len(),
            forall|j: int|
                0 <= j < i ==> ascii_lower_all(#[trigger] views(aliases@)[j]) != ascii_lower_all(
                    alias@,
                ),
        decreases aliases.len() - i,
    {
        if eq_ignore_ascii_case(aliases[i].as_str(), alias) {
            assert(views(aliases@)[i as int] == aliases@[i as int]@);
            return true;
        }
        i += 1;
    }
    false
}

/// Adds the aliases that are not there yet.
fn add_aliases(aliases: &mut Vec<String>, more: &'static [&'static str])
    ensures
        views(final(aliases)@) == with_aliases(
            views(old(aliases)@),
            Seq::new(more@.len(), |i: int| more@[i]@),
        ),
{
    let ghost all = Seq::new(more@.len(), |i: int| more@[i]@);
    let ghost start = views(aliases@);
    let mut k: usize = 0;
    assert(with_aliases(start, all.take(0)) == start);
    while k < more.len()
        invariant
            all == Seq::new(more@.len(), |i: int| more@[i]@),
            k <= more@.len(),
            views(aliases@) == with_aliases(start, all.take(k as int)),
        decreases more.len() - k,
    {
        let ghost before = views(aliases@);
        assert(all.take(k + 1).drop_last() =~= all.take(k as int));
        if !knows_alias(aliases, more[k]) {
            aliases.push(more[k].to_owned());
            assert(views(aliases@) =~= before.push(all[k as int]));
        }
        k += 1;
    }
    assert(all.take(all.len() as int) =~= all);
}

proof fn lemma_place_in(keys: Seq<Seq<char>>, key: Seq<char>)
    ensures
        0 <= place_in(keys, key) <= keys.len(),
        place_in(keys, key) < keys.len() ==> keys[place_in(keys, key)] == key,
        forall|i: int| 0 <= i < place_in(keys, key) ==> #[trigger] keys[i] != key,
    decreases keys.len(),
{
    if keys.len() > 0 {
        lemma_place_in(keys.drop_last(), key);
        let n = place_in(keys, key);
        assert forall|i: int| 0 <= i < n implies #[trigger] keys[i] != key by {
            if i < keys.len() - 1 {
                assert(keys.drop_last()[i] == keys[i]);
            }
        }
    }
}

/// The place of the first of the keys that is `key`, or the number of keys.
pub fn find_key(keys: &Vec<String>, key: &str) -> (r: usize)
    ensures
        r == place_in(views(keys@), key@),
{
    proof {
        lemma_place_in(views(keys@), key@);
    }
    let mut i: usize = 0;
    while i < keys.len()
        invariant
            i <= keys@.len(),
            i <= place_in(views(keys@), key@),
            place_in(views(keys@), key@) < keys@.len() ==> views(keys@)[place_in(
                views(keys@),
                key@,
            )] == key@,
            forall|j: int|
                0 <= j < place_in(views(keys@), key@) ==> #[trigger] views(keys@)[j] != key@,
        decreases keys.len() - i,
    {
        assert(views(keys@)[i as int] == keys@[i as int]@);
        if text_eq(keys[i].as_str(), key) {
            return i;
        }
        i += 1;
    }
    i
}

/// Merges one command into the entries, where `at` is the place of the entry that stands
/// for it already, or the number of entries: that entry only gains the aliases, and an
/// entry is added only where none is there and the command is to be found on this machine.
pub fn merge_command(apps: &mut Vec<AppInfo>, at: usize, def: &CommandDef, host: &CommandHost)
    requires
        at <= old(apps)@.len(),
    ensures
        rows(final(apps)@) == merged_at(rows(old(apps)@), at as int, def@, host@),
{
    let ghost before = rows(apps@);
    if at < apps.len() {
        add_aliases(&mut apps[at].aliases, def.aliases);
        assert(rows(apps@) =~= merged_at(before, at as int, def@, host@));
    } else if let Some(full) = resolve_on_path(def.cmd, host) {
        let mut aliases: Vec<String> = Vec::new();
        add_all(&mut aliases, def.aliases);
        apps.push(
            AppInfo {
                name: def.name.to_owned(),
                comment: Some("系统命令".to_owned()),
                launch_path: full.clone(),
                target_path: full,
                icon: None,
                aliases,
            },
        );
        assert(rows(apps@) =~= merged_at(before, at as int, def@, host@));
    }
}

/// Merges the table of commands into the index: a row of the same name only gains the
/// aliases, and a row is added only for a command that no row stands for and that is to
/// be found on this machine.
pub fn apply_commands(apps: &mut Vec<AppInfo>, host: &CommandHost)
    ensures
        rows(final(apps)@) == merged_all(rows(old(apps)@), command_table(), host@),
{
    let ghost start = rows(apps@);
    let mut keys = keys_of(apps);
    let table = commands();
    let ghost spec_table = command_table();
    let mut n: usize = 0;
    assert(merged_all(start, spec_table.take(0), host@) == start);
    while n < table.len()
        invariant
            spec_table == command_table(),
            table@.len() == spec_table.len(),
            forall|j: int| 0 <= j < table@.len() ==> (#[trigger] table@[j])@ == spec_table[j],
            n <= table@.len(),
            views(keys@) == row_keys(rows(apps@)),
            rows(apps@) == merged_all(start, spec_table.take(n as int), host@),
        decreases table.len() - n,
    {
        let def = &table[n];
        let ghost before = rows(apps@);
        assert(spec_table.take(n + 1).drop_last() =~= spec_table.take(n as int));
        assert(spec_table.take(n + 1).last() == def@);
        let key = index_name_key(def.name);
        let at: usize = find_key(&keys, key.as_str());
        proof {
            lemma_place_in(views(keys@), key@);
        }
        let count: usize = apps.len();
        merge_command(apps, at, def, host);
        assert(rows(apps@).len() == apps@.len() && before.len() == count);
        if apps.len() > count {
            assert(row_keys(rows(apps@)) =~= row_keys(before).push(key@));
            keys.push(key);
        } else {
            assert(row_keys(rows(apps@)) =~= row_keys(before));
        }
        assert(views(keys@) =~= row_keys(rows(apps@)));
        n += 1;
    }
    assert(spec_table.take(spec_table.len() as int) =~= spec_table);
}

/// Appends all texts.
fn add_all(out: &mut Vec<String>, more: &'static [&'static str])
    ensures
        views(final(out)@) == views(old(out)@) + Seq::new(more@.len(), |i: int| more@[i]@),
{
    let ghost start = views(out@);
    let ghost all = Seq::new(more@.len(), |i: int| more@[i]@);
    let mut k: usize = 0;
    assert(views(out@) =~= start + all.take(0));
    while k < more.len()
        invariant
            all == Seq::new(more@.len(), |i: int| more@[i]@),
            k <= more@.len(),
            views(out@) == start + all.take(k as int),
        decreases more.len() - k,
    {
        let ghost before = views(out@);
        out.push(more[k].to_owned());
        k += 1;
        assert(views(out@) =~= before.push(all[k - 1]));
        assert(views(out@) =~= start + all.take(k as int));
    }
    assert(all.take(all.len() as int) =~= all);
}

/// The rows are the same but for aliases that `b` has behind those of `a`.
pub open spec fn same_but_more_aliases(a: Row, b: Row) -> bool {
    &&& a.name == b.name
    &&& a.comment == b.comment
    &&& a.launch_path == b.launch_path
    &&& a.target_path == b.target_path
    &&& a.icon == b.icon
    &&& a.aliases.is_prefix_of(b.aliases)
}

/// The command's row: under the name of the command, launching the file that it resolves
/// to.
pub open spec fn stands_for(row: Row, c: Command, host: Host) -> bool {
    &&& row.name == c.name
    &&& row.comment == Some("系统命令"@)
    &&& resolved(c.cmd, host) == Some(row.launch_path)
    &&& row.target_path == row.launch_path
    &&& row.icon is None
}

/// Each of the aliases is there, in whatever case of letters.
pub open spec fn has_aliases(aliases: Seq<Seq<char>>, more: Seq<Seq<char>>) -> bool {
    forall|m: int| 0 <= m < more.len() ==> has_alias(aliases, #[trigger] more[m])
}

proof fn lemma_place_of(list: Seq<Row>, key: Seq<char>)
    ensures
        0 <= place_of(list, key) <= list.len(),
        place_of(list, key) < list.len() ==> name_key(list[place_of(list, key)].name) == key,
        forall|i: int|
            0 <= i < place_of(list, key) ==> name_key((#[trigger] list[i]).name) != key,
        place_of(list, key) < list.len() <==> has_key(list, key),
{
    lemma_place_in(row_keys(list), key);
    let n = place_of(list, key);
    assert forall|i: int| 0 <= i < n implies name_key((#[trigger] list[i]).name) != key by {
        assert(row_keys(list)[i] == name_key(list[i].name));
    }
    if n < list.len() {
        assert(name_key(list[n].name) == key);
    }
}

proof fn lemma_place_is_kept(before: Seq<Row>, after: Seq<Row>, key: Seq<char>)
    requires
        before.len() <= after.len(),
        forall|i: int| 0 <= i < before.len() ==> (#[trigger] before[i]).name == after[i].name,
        has_key(before, key),
    ensures
        place_of(after, key) == place_of(before, key),
{
    lemma_place_of(before, key);
    lemma_place_of(after, key);
    let n = place_of(before, key);
    let m = place_of(after, key);
    assert(name_key(after[n].name) == key);
    if m < n {
        assert(name_key(before[m].name) == key);
    }
}

proof fn lemma_has_alias_in_longer(a: Seq<Seq<char>>, b: Seq<Seq<char>>, alias: Seq<char>)
    requires
        a.is_prefix_of(b),
        has_alias(a, alias),
    ensures
        has_alias(b, alias),
{
    let i = choose|i: int|
        0 <= i < a.len() && ascii_lower_all(#[trigger] a[i]) == ascii_lower_all(alias);
    assert(a[i] == b.subrange(0, a.len() as int)[i]);
    assert(b[i] == a[i]);
}

proof fn lemma_with_aliases(aliases: Seq<Seq<char>>, more: Seq<Seq<char>>)
    ensures
        aliases.is_prefix_of(with_aliases(aliases, more)),
        has_aliases(with_aliases(aliases, more), more),
        has_aliases(aliases, more) ==> with_aliases(aliases, more) == aliases,
    decreases more.len(),
{
    let all = with_aliases(aliases, more);
    if more.len() > 0 {
        let head = more.drop_last();
        let before = with_aliases(aliases, head);
        lemma_with_aliases(aliases, head);
        assert(before.is_prefix_of(all)) by {
            assert(before =~= all.subrange(0, before.len() as int));
        }
        assert(aliases.is_prefix_of(all)) by {
            assert(aliases =~= all.subrange(0, aliases.len() as int)) by {
                assert forall|i: int| 0 <= i < aliases.len() implies aliases[i] == all[i] by {
                    assert(aliases[i] == before.subrange(0, aliases.len() as int)[i]);
                }
            }
        }
        assert forall|m: int| 0 <= m < more.len() implies has_alias(all, #[trigger] more[m]) by {
            if m < head.len() {
                assert(head[m] == more[m]);
                lemma_has_alias_in_longer(before, all, more[m]);
            } else if !has_alias(before, more[m]) {
                assert(all[all.len() - 1] == more[m]);
            }
        }
        if has_aliases(aliases, more) {
            assert forall|m: int| 0 <= m < head.len() implies has_alias(
                aliases,
                #[trigger] head[m],
            ) by {
                assert(head[m] == more[m]);
            }
            assert(has_alias(aliases, more[more.len() - 1]));
        }
    } else {
        assert(aliases =~= all.subrange(0, aliases.len() as int));
    }
}

proof fn lemma_has_own_aliases(aliases: Seq<Seq<char>>)
    ensures
        has_aliases(aliases, aliases),
{
    assert forall|m: int| 0 <= m < aliases.len() implies has_alias(aliases, #[trigger] aliases[m]) by {
        assert(ascii_lower_all(aliases[m]) == ascii_lower_all(aliases[m]));
    }
}

proof fn lemma_merged(list: Seq<Row>, c: Command, host: Host)
    ensures
        list.len() <= merged(list, c, host).len() <= list.len() + 1,
        forall|i: int|
            0 <= i < list.len() ==> same_but_more_aliases(
                #[trigger] list[i],
                merged(list, c, host)[i],
            ),
        merged(list, c, host).len() > list.len() ==> !has_key(list, name_key(c.name)) && stands_for(
            merged(list, c, host).last(),
            c,
            host,
        ),
        has_key(list, name_key(c.name)) || resolved(c.cmd, host) is Some ==> ({
            let place = place_of(merged(list, c, host), name_key(c.name));
            &&& 0 <= place < merged(list, c, host).len()
            &&& has_aliases(merged(list, c, host)[place].aliases, c.aliases)
        }),
{
    let key = name_key(c.name);
    let i = place_of(list, key);
    let all = merged(list, c, host);
    lemma_place_of(list, key);
    assert forall|j: int| 0 <= j < list.len() implies same_but_more_aliases(
        #[trigger] list[j],
        all[j],
    ) by {
        lemma_with_aliases(list[j].aliases, c.aliases);
        assert(list[j].aliases =~= list[j].aliases.subrange(0, list[j].aliases.len() as int));
    }
    if i < list.len() {
        lemma_with_aliases(list[i].aliases, c.aliases);
        lemma_place_is_kept(list, all, key);
    } else if resolved(c.cmd, host) is Some {
        let n = list.len() as int;
        lemma_place_of(all, key);
        assert(name_key(all[n].name) == key);
        if place_of(all, key) < n {
            assert(name_key(list[place_of(all, key)].name) == key);
        }
        lemma_has_own_aliases(c.aliases);
    }
}

proof fn lemma_more_aliases_transitive(a: Row, b: Row, c: Row)
    requires
        same_but_more_aliases(a, b),
        same_but_more_aliases(b, c),
    ensures
        same_but_more_aliases(a, c),
{
    assert forall|i: int| 0 <= i < a.aliases.len() implies a.aliases[i] == c.aliases[i] by {
        assert(a.aliases[i] == b.aliases.subrange(0, a.aliases.len() as int)[i]);
        assert(b.aliases[i] == c.aliases.subrange(0, b.aliases.len() as int)[i]);
    }
    assert(a.aliases =~= c.aliases.subrange(0, a.aliases.len() as int));
}

/// Merging commands in removes no row and moves none, and keeps each row's name, comment,
/// way of launching, target and icon: a row can only gain aliases, behind those it has.
pub proof fn law_commands_keep_rows(list: Seq<Row>, table: Seq<Command>, host: Host)
    ensures
        list.len() <= merged_all(list, table, host).len(),
        forall|i: int|
            0 <= i < list.len() ==> same_but_more_aliases(
                #[trigger] list[i],
                merged_all(list, table, host)[i],
            ),
    decreases table.len(),
{
    let all = merged_all(list, table, host);
    if table.len() > 0 {
        let before = merged_all(list, table.drop_last(), host);
        law_commands_keep_rows(list, table.drop_last(), host);
        lemma_merged(before, table.last(), host);
        assert forall|i: int| 0 <= i < list.len() implies same_but_more_aliases(
            #[trigger] list[i],
            all[i],
        ) by {
            assert(same_but_more_aliases(before[i], all[i]));
            lemma_more_aliases_transitive(list[i], before[i], all[i]);
        }
    } else {
        assert forall|i: int| 0 <= i < list.len() implies same_but_more_aliases(
            #[trigger] list[i],
            all[i],
        ) by {
            assert(list[i].aliases =~= list[i].aliases.subrange(0, list[i].aliases.len() as int));
        }
    }
}

/// A row that merging adds stands for a command of the table that resolves on this
/// machine, and no row before it has the same name key: a name that is there already
/// never gets a second row.
pub proof fn law_commands_add_only_new_names(list: Seq<Row>, table: Seq<Command>, host: Host)
    ensures
        forall|i: int|
            list.len() <= i < merged_all(list, table, host).len() ==> exists|k: int|
                0 <= k < table.len() && stands_for(
                    #[trigger] merged_all(list, table, host)[i],
                    #[trigger] table[k],
                    host,
                ),
        forall|i: int, j: int|
            0 <= j < i < merged_all(list, table, host).len() && list.len() <= i ==> name_key(
                (#[trigger] merged_all(list, table, host)[j]).name,
            ) != name_key((#[trigger] merged_all(list, table, host)[i]).name),
    decreases table.len(),
{
    let all = merged_all(list, table, host);
    if table.len() > 0 {
        let head = table.drop_last();
        let c = table.last();
        let before = merged_all(list, head, host);
        law_commands_keep_rows(list, head, host);
        law_commands_add_only_new_names(list, head, host);
        lemma_merged(before, c, host);
        assert forall|i: int| list.len() <= i < all.len() implies exists|k: int|
            0 <= k < table.len() && stands_for(#[trigger] all[i], #[trigger] table[k], host) by {
            if i < before.len() {
                let k = choose|k: int|
                    0 <= k < head.len() && stands_for(before[i], #[trigger] head[k], host);
                assert(same_but_more_aliases(before[i], all[i]));
                assert(table[k] == head[k]);
            } else {
                assert(table[table.len() - 1] == c);
            }
        }
        assert forall|i: int, j: int| 0 <= j < i < all.len() && list.len() <= i implies name_key(
            (#[trigger] all[j]).name,
        ) != name_key((#[trigger] all[i]).name) by {
            assert(same_but_more_aliases(before[j], all[j]));
            if i < before.len() {
                assert(same_but_more_aliases(before[i], all[i]));
            } else {
                assert(!has_key(before, name_key(c.name)));
                assert(name_key(before[j].name) != name_key(c.name));
            }
        }
    }
}

/// A command that some row stands for by name, or that resolves on this machine, has a row
/// in the index afterwards, and that row is found by each of the command's aliases.
pub proof fn law_command_is_found_by_its_aliases(
    list: Seq<Row>,
    table: Seq<Command>,
    host: Host,
    k: int,
)
    requires
        0 <= k < table.len(),
        has_key(list, name_key(table[k].name)) || resolved(table[k].cmd, host) is Some,
    ensures
        ({
            let all = merged_all(list, table, host);
            let place = place_of(all, name_key(table[k].name));
            &&& 0 <= place < all.len()
            &&& has_aliases(all[place].aliases, table[k].aliases)
        }),
    decreases table.len(),
{
    let all = merged_all(list, table, host);
    let head = table.drop_last();
    let before = merged_all(list, head, host);
    let c = table[k];
    let key = name_key(c.name);
    lemma_merged(before, table.last(), host);
    if k < head.len() {
        law_command_is_found_by_its_aliases(list, head, host, k);
        lemma_place_of(before, key);
        assert forall|i: int| 0 <= i < before.len() implies (#[trigger] before[i]).name
            == all[i].name by {
            assert(same_but_more_aliases(before[i], all[i]));
        }
        lemma_place_is_kept(before, all, key);
        let place = place_of(before, key);
        assert(same_but_more_aliases(before[place], all[place]));
        assert forall|m: int| 0 <= m < c.aliases.len() implies has_alias(
            all[place].aliases,
            #[trigger] c.aliases[m],
        ) by {
            lemma_has_alias_in_longer(before[place].aliases, all[place].aliases, c.aliases[m]);
        }
    } else {
        law_commands_keep_rows(list, head, host);
        if has_key(list, key) {
            let i = choose|i: int| 0 <= i < list.len() && name_key((#[trigger] list[i]).name) == key;
            assert(same_but_more_aliases(list[i], before[i]));
            assert(name_key(before[i].name) == key);
        }
    }
}

/// No two commands of the table have the same name key.
pub open spec fn names_distinct(table: Seq<Command>) -> bool {
    forall|i: int, j: int|
        0 <= i < j < table.len() ==> name_key((#[trigger] table[i]).name) != name_key(
            (#[trigger] table[j]).name,
        )
}

proof fn lemma_merged_again(list: Seq<Row>, c: Command, host: Host)
    ensures
        merged(merged(list, c, host), c, host) == merged(list, c, host),
{
    let all = merged(list, c, host);
    let key = name_key(c.name);
    lemma_merged(list, c, host);
    lemma_place_of(list, key);
    if has_key(list, key) || resolved(c.cmd, host) is Some {
        let place = place_of(all, key);
        lemma_with_aliases(all[place].aliases, c.aliases);
        assert(merged(all, c, host) =~= all);
    }
}

proof fn lemma_merged_stays(list: Seq<Row>, c: Command, d: Command, host: Host)
    requires
        name_key(c.name) != name_key(d.name),
        merged(list, c, host) == list,
    ensures
        merged(merged(list, d, host), c, host) == merged(list, d, host),
{
    let all = merged(list, d, host);
    let key = name_key(c.name);
    lemma_merged(list, c, host);
    lemma_merged(list, d, host);
    lemma_place_of(list, key);
    lemma_place_of(all, key);
    assert forall|i: int| 0 <= i < list.len() implies (#[trigger] list[i]).name == all[i].name by {
        assert(same_but_more_aliases(list[i], all[i]));
    }
    if has_key(list, key) {
        lemma_place_is_kept(list, all, key);
        let place = place_of(list, key);
        assert(same_but_more_aliases(list[place], all[place]));
        assert forall|m: int| 0 <= m < c.aliases.len() implies has_alias(
            all[place].aliases,
            #[trigger] c.aliases[m],
        ) by {
            assert(has_alias(list[place].aliases, c.aliases[m]));
            lemma_has_alias_in_longer(list[place].aliases, all[place].aliases, c.aliases[m]);
        }
        lemma_with_aliases(all[place].aliases, c.aliases);
        assert(merged(all, c, host) =~= all);
    } else {
        assert(resolved(c.cmd, host) is None);
        assert(!has_key(all, key)) by {
            if has_key(all, key) {
                let i = choose|i: int|
                    0 <= i < all.len() && name_key((#[trigger] all[i]).name) == key;
                if i < list.len() {
                    assert(name_key(list[i].name) == key);
                }
            }
        }
    }
}

proof fn lemma_settled(list: Seq<Row>, table: Seq<Command>, host: Host, k: int)
    requires
        names_distinct(table),
        0 <= k < table.len(),
    ensures
        merged(merged_all(list, table, host), table[k], host) == merged_all(list, table, host),
    decreases table.len(),
{
    let head = table.drop_last();
    let before = merged_all(list, head, host);
    if k < head.len() {
        assert(names_distinct(head));
        lemma_settled(list, head, host, k);
        assert(name_key(table[k].name) != name_key(table[table.len() - 1].name));
        lemma_merged_stays(before, table[k], table.last(), host);
    } else {
        lemma_merged_again(before, table.last(), host);
    }
}

proof fn lemma_all_settled(list: Seq<Row>, table: Seq<Command>, host: Host)
    requires
        forall|k: int| 0 <= k < table.len() ==> merged(list, #[trigger] table[k], host) == list,
    ensures
        merged_all(list, table, host) == list,
    decreases table.len(),
{
    if table.len() > 0 {
        let head = table.drop_last();
        assert forall|k: int| 0 <= k < head.len() implies merged(list, #[trigger] head[k], host)
            == list by {
            assert(head[k] == table[k]);
        }
        lemma_all_settled(list, head, host);
        assert(merged(list, table[table.len() - 1], host) == list);
    }
}

/// Merging the same commands in a second time changes nothing.
pub proof fn law_merging_commands_is_idempotent(list: Seq<Row>, table: Seq<Command>, host: Host)
    requires
        names_distinct(table),
    ensures
        merged_all(merged_all(list, table, host), table, host) == merged_all(list, table, host),
{
    let all = merged_all(list, table, host);
    assert forall|k: int| 0 <= k < table.len() implies merged(all, #[trigger] table[k], host)
        == all by {
        lemma_settled(list, table, host, k);
    }
    lemma_all_settled(all, table, host);
}

proof fn lemma_key_of_trimmed(name: Seq<char>)
    requires
        plain_text(name),
        name.len() > 0,
        !is_white_space(name[0]),
        !is_white_space(name.last()),
    ensures
        name_key(name) == ascii_lower_all(name),
{
}

/// What tells a name of the table from the others: its length, its first character and its
/// last two, in small letters.
spec fn name_mark(name: Seq<char>) -> (nat, char, char, char) {
    let low = ascii_lower_all(name);
    (low.len(), low[0], low[low.len() - 2], low.last())
}

proof fn lemma_name_marks(k: int)
    requires
        0 <= k < command_table().len(),
    ensures
        ({
            let name = command_table()[k].name;
            &&& plain_text(name)
            &&& name.len() > 0
            &&& !is_white_space(name[0])
            &&& !is_white_space(name.last())
            &&& name_mark(name) == table_mark(k)
        }),
{
    reveal_strlit("计算器");
    reveal_strlit("记事本");
    reveal_strlit("画图");
    reveal_strlit("截图工具");
    reveal_strlit("Windows 终端");
    reveal_strlit("任务管理器");
    reveal_strlit("命令提示符");
    reveal_strlit("Windows PowerShell");
    reveal_strlit("注册表编辑器");
    reveal_strlit("文件资源管理器");
    reveal_strlit("控制面板");
    reveal_strlit("设备管理器");
    reveal_strlit("磁盘管理");
    reveal_strlit("服务");
    reveal_strlit("事件查看器");
    reveal_strlit("计算机管理");
    reveal_strlit("任务计划程序");
    reveal_strlit("高级安全 Windows 防火墙");
    reveal_strlit("证书管理器");
    reveal_strlit("系统配置");
    reveal_strlit("系统信息");
    reveal_strlit("资源监视器");
    reveal_strlit("性能监视器");
    reveal_strlit("磁盘清理");
    reveal_strlit("磁盘碎片整理");
    reveal_strlit("远程桌面连接");
    reveal_strlit("DirectX 诊断工具");
    reveal_strlit("音量合成器");
    reveal_strlit("字符映射表");
    reveal_strlit("屏幕键盘");
    reveal_strlit("放大镜");
    reveal_strlit("步骤记录器");
    reveal_strlit("Windows 版本信息");
    reveal_strlit("程序和功能");
    reveal_strlit("系统属性");
    reveal_strlit("网络连接");
    reveal_strlit("电源选项");
}

/// The marks of the names of the table.
spec fn table_mark(k: int) -> (nat, char, char, char) {
    seq![
        (3nat, '计', '算', '器'),
        (3nat, '记', '事', '本'),
        (2nat, '画', '画', '图'),
        (4nat, '截', '工', '具'),
        (10nat, 'w', '终', '端'),
        (5nat, '任', '理', '器'),
        (5nat, '命', '示', '符'),
        (18nat, 'w', 'l', 'l'),
        (6nat, '注', '辑', '器'),
        (7nat, '文', '理', '器'),
        (4nat, '控', '面', '板'),
        (5nat, '设', '理', '器'),
        (4nat, '磁', '管', '理'),
        (2nat, '服', '服', '务'),
        (5nat, '事', '看', '器'),
        (5nat, '计', '管', '理'),
        (6nat, '任', '程', '序'),
        (16nat, '高', '火', '墙'),
        (5nat, '证', '理', '器'),
        (4nat, '系', '配', '置'),
        (4nat, '系', '信', '息'),
        (5nat, '资', '视', '器'),
        (5nat, '性', '视', '器'),
        (4nat, '磁', '清', '理'),
        (6nat, '磁', '整', '理'),
        (6nat, '远', '连', '接'),
        (12nat, 'd', '工', '具'),
        (5nat, '音', '成', '器'),
        (5nat, '字', '射', '表'),
        (4nat, '屏', '键', '盘'),
        (3nat, '放', '大', '镜'),
        (5nat, '步', '录', '器'),
        (12nat, 'w', '信', '息'),
        (5nat, '程', '功', '能'),
        (4nat, '系', '属', '性'),
        (4nat, '网', '连', '接'),
        (4nat, '电', '选', '项'),
    ][k]
}

/// No two commands of the table have the same name key.
pub proof fn law_table_names_are_distinct()
    ensures
        names_distinct(command_table()),
{
    let table = command_table();
    assert forall|i: int, j: int| 0 <= i < j < table.len() implies name_key(
        (#[trigger] table[i]).name,
    ) != name_key((#[trigger] table[j]).name) by {
        lemma_name_marks(i);
        lemma_name_marks(j);
        lemma_key_of_trimmed(table[i].name);
        lemma_key_of_trimmed(table[j].name);
        assert(table_mark(i) != table_mark(j));
    }
}

/// Merging the table of commands into the index a second time changes nothing.
pub proof fn law_applying_commands_twice_changes_nothing(list: Seq<Row>, host: Host)
    ensures
        merged_all(merged_all(list, command_table(), host), command_table(), host) == merged_all(
            list,
            command_table(),
            host,
        ),
{
    law_table_names_are_distinct();
    law_merging_commands_is_idempotent(list, command_table(), host);
}

/// A command that is written with its extension is looked for as it stands: the list of
/// executable extensions plays no part.
pub proof fn law_extensions_are_for_bare_commands(
    cmd: Seq<char>,
    dirs: Seq<Seq<char>>,
    exts: Seq<Seq<char>>,
    others: Seq<Seq<char>>,
)
    requires
        extension_of(cmd) is Some,
    ensures
        candidates(cmd, dirs, exts) == candidates(cmd, dirs, others),
{
}

/// A command resolves to the first of its candidates that is a file, and to none where
/// none is.
pub proof fn law_first_file_wins(cmd: Seq<char>, host: Host)
    ensures
        match resolved(cmd, host) {
            Some(full) => exists|i: int|
                0 <= i < candidates(cmd, host.dirs, host.exts).len() && #[trigger] candidates(
                    cmd,
                    host.dirs,
                    host.exts,
                )[i] == full && host.files.contains(full) && forall|j: int|
                    0 <= j < i ==> !host.files.contains(
                        #[trigger] candidates(cmd, host.dirs, host.exts)[j],
                    ),
            None => forall|i: int|
                0 <= i < candidates(cmd, host.dirs, host.exts).len() ==> !host.files.contains(
                    #[trigger] candidates(cmd, host.dirs, host.exts)[i],
                ),
        },
{
    lemma_first_file(candidates(cmd, host.dirs, host.exts), host.files);
}

proof fn lemma_first_file(paths: Seq<Seq<char>>, files: Seq<Seq<char>>)
    ensures
        match first_file(paths, files) {
            Some(full) => exists|i: int|
                0 <= i < paths.len() && #[trigger] paths[i] == full && files.contains(full)
                    && forall|j: int| 0 <= j < i ==> !files.contains(#[trigger] paths[j]),
            None => forall|i: int| 0 <= i < paths.len() ==> !files.contains(#[trigger] paths[i]),
        },
    decreases paths.len(),
{
    if paths.len() > 0 {
        let rest = paths.drop_first();
        if files.contains(paths[0]) {
            assert(paths[0] == paths[0]);
        } else {
            lemma_first_file(rest, files);
            match first_file(rest, files) {
                Some(full) => {
                    let i = choose|i: int|
                        0 <= i < rest.len() && #[trigger] rest[i] == full && files.contains(full)
                            && forall|j: int| 0 <= j < i ==> !files.contains(#[trigger] rest[j]);
                    assert(paths[i + 1] == full);
                    assert forall|j: int| 0 <= j < i + 1 implies !files.contains(
                        #[trigger] paths[j],
                    ) by {
                        if j > 0 {
                            assert(rest[j - 1] == paths[j]);
                        }
                    }
                },
                None => {
                    assert forall|j: int| 0 <= j < paths.len() implies !files.contains(
                        #[trigger] paths[j],
                    ) by {
                        if j > 0 {
                            assert(rest[j - 1] == paths[j]);
                        }
                    }
                },
            }
        }
    }
}

proof fn lemma_alias_chars(aliases: Seq<Seq<char>>, alias: Seq<char>)
    ensures
        has_alias(aliases, alias) <==> exists|a: int|
            0 <= a < aliases.len() && (#[trigger] aliases[a]).len() == alias.len() && forall|i: int|
                0 <= i < alias.len() ==> (#[trigger] aliases[a][i]) == alias[i] || ('A'
                    <= aliases[a][i] && aliases[a][i] <= 'Z' && alias[i] as int == aliases[a][i]
                    as int + 32) || ('A' <= alias[i] && alias[i] <= 'Z' && aliases[a][i] as int
                    == alias[i] as int + 32),
{
    if has_alias(aliases, alias) {
        let a = choose|a: int|
            0 <= a < aliases.len() && ascii_lower_all(#[trigger] aliases[a]) == ascii_lower_all(
                alias,
            );
        law_same_but_for_case(aliases[a], alias);
    }
    if exists|a: int|
        0 <= a < aliases.len() && (#[trigger] aliases[a]).len() == alias.len() && forall|i: int|
            0 <= i < alias.len() ==> (#[trigger] aliases[a][i]) == alias[i] || ('A' <= aliases[a][i]
                && aliases[a][i] <= 'Z' && alias[i] as int == aliases[a][i] as int + 32) || ('A'
                <= alias[i] && alias[i] <= 'Z' && aliases[a][i] as int == alias[i] as int + 32) {
        let a = choose|a: int|
            0 <= a < aliases.len() && (#[trigger] aliases[a]).len() == alias.len() && forall|i: int|
                0 <= i < alias.len() ==> (#[trigger] aliases[a][i]) == alias[i] || ('A'
                    <= aliases[a][i] && aliases[a][i] <= 'Z' && alias[i] as int == aliases[a][i]
                    as int + 32) || ('A' <= alias[i] && alias[i] <= 'Z' && aliases[a][i] as int
                    == alias[i] as int + 32);
        law_same_but_for_case(aliases[a], alias);
        assert(ascii_lower_all(aliases[a]) == ascii_lower_all(alias));
    }
}

/// After merging, the first row under a command's name has each of the command's aliases:
/// the alias `m` stands among the row's, character for character but for the case of ASCII
/// letters. Holds of a command that a row had the name of already, or that is to be found on
/// this machine.
pub proof fn law_merged_row_has_each_alias(
    list: Seq<Row>,
    table: Seq<Command>,
    host: Host,
    k: int,
    m: int,
    r: int,
)
    requires
        0 <= k < table.len(),
        0 <= m < table[k].aliases.len(),
        0 <= r < merged_all(list, table, host).len(),
        name_key(merged_all(list, table, host)[r].name) == name_key(table[k].name),
        forall|j: int|
            0 <= j < r ==> name_key((#[trigger] merged_all(list, table, host)[j]).name) != name_key(
                table[k].name,
            ),
        (exists|i: int|
            0 <= i < list.len() && name_key((#[trigger] list[i]).name) == name_key(table[k].name))
            || resolved(table[k].cmd, host) is Some,
    ensures
        ({
            let row = merged_all(list, table, host)[r];
            let alias = table[k].aliases[m];
            exists|a: int|
                0 <= a < row.aliases.len() && (#[trigger] row.aliases[a]).len() == alias.len()
                    && forall|i: int|
                    0 <= i < alias.len() ==> (#[trigger] row.aliases[a][i]) == alias[i] || ('A'
                        <= row.aliases[a][i] && row.aliases[a][i] <= 'Z' && alias[i] as int
                        == row.aliases[a][i] as int + 32) || ('A' <= alias[i] && alias[i] <= 'Z'
                        && row.aliases[a][i] as int == alias[i] as int + 32)
        }),
{
    let all = merged_all(list, table, host);
    let key = name_key(table[k].name);
    law_command_is_found_by_its_aliases(list, table, host, k);
    lemma_place_of(all, key);
    let place = place_of(all, key);
    if place < r {
        assert(name_key(all[place].name) != key);
    }
    if r < place {
        assert(name_key(all[r].name) != key);
    }
    assert(has_alias(all[r].aliases, table[k].aliases[m]));
    lemma_alias_chars(all[r].aliases, table[k].aliases[m]);
}

/// Every command of the table that has a row after merging is found by each of its aliases:
/// the first row under its name has the alias `m`, character for character but for the case
/// of ASCII letters.
pub proof fn law_table_row_has_each_alias(list: Seq<Row>, host: Host, k: int, m: int, r: int)
    requires
        0 <= k < command_table().len(),
        0 <= m < command_table()[k].aliases.len(),
        0 <= r < merged_all(list, command_table(), host).len(),
        name_key(merged_all(list, command_table(), host)[r].name) == name_key(
            command_table()[k].name,
        ),
        forall|j: int|
            0 <= j < r ==> name_key((#[trigger] merged_all(list, command_table(), host)[j]).name)
                != name_key(command_table()[k].name),
    ensures
        ({
            let row = merged_all(list, command_table(), host)[r];
            let alias = command_table()[k].aliases[m];
            exists|a: int|
                0 <= a < row.aliases.len() && (#[trigger] row.aliases[a]).len() == alias.len()
                    && forall|i: int|
                    0 <= i < alias.len() ==> (#[trigger] row.aliases[a][i]) == alias[i] || ('A'
                        <= row.aliases[a][i] && row.aliases[a][i] <= 'Z' && alias[i] as int
                        == row.aliases[a][i] as int + 32) || ('A' <= alias[i] && alias[i] <= 'Z'
                        && row.aliases[a][i] as int == alias[i] as int + 32)
        }),
{
    let table = command_table();
    let all = merged_all(list, table, host);
    let key = name_key(table[k].name);
    law_commands_keep_rows(list, table, host);
    law_commands_add_only_new_names(list, table, host);
    law_table_names_are_distinct();
    if r < list.len() {
        assert(same_but_more_aliases(list[r], all[r]));
        assert(name_key(list[r].name) == key);
    } else {
        let n = choose|n: int| 0 <= n < table.len() && stands_for(all[r], #[trigger] table[n], host);
        if n < k {
            assert(name_key(table[n].name) != name_key(table[k].name));
        }
        if k < n {
            assert(name_key(table[k].name) != name_key(table[n].name));
        }
    }
    law_merged_row_has_each_alias(list, table, host, k, m, r);
}

/// Aliases are added one after the other: one that is there already, character for character
/// but for the case of ASCII letters, is not added again, and any other goes behind the rest.
pub proof fn law_one_more_alias(aliases: Seq<Seq<char>>, more: Seq<Seq<char>>, alias: Seq<char>)
    ensures
        with_aliases(aliases, Seq::empty()) == aliases,
        ({
            let before = with_aliases(aliases, more);
            let there = exists|a: int|
                0 <= a < before.len() && (#[trigger] before[a]).len() == alias.len() && forall|
                    i: int,
                |
                    0 <= i < alias.len() ==> (#[trigger] before[a][i]) == alias[i] || ('A'
                        <= before[a][i] && before[a][i] <= 'Z' && alias[i] as int == before[a][i]
                        as int + 32) || ('A' <= alias[i] && alias[i] <= 'Z' && before[a][i] as int
                        == alias[i] as int + 32);
            &&& there ==> with_aliases(aliases, more.push(alias)) == before
            &&& !there ==> with_aliases(aliases, more.push(alias)) == before + seq![alias]
        }),
{
    let before = with_aliases(aliases, more);
    lemma_alias_chars(before, alias);
    assert(more.push(alias).drop_last() =~= more);
    assert(before.push(alias) =~= before + seq![alias]);
}

/// Merging one command in: the first row under its name, at `r`, gains the aliases and stays
/// as it is otherwise; without one, the command gets a row of its own at the end if it is
/// found on this machine, and nothing changes if it is not.
pub proof fn law_one_more_command(list: Seq<Row>, table: Seq<Command>, c: Command, host: Host, r: int)
    requires
        0 <= r <= merged_all(list, table, host).len(),
        forall|j: int|
            0 <= j < r ==> name_key((#[trigger] merged_all(list, table, host)[j]).name) != name_key(
                c.name,
            ),
        r < merged_all(list, table, host).len() ==> name_key(merged_all(list, table, host)[r].name)
            == name_key(c.name),
    ensures
        merged_all(list, Seq::empty(), host) == list,
        ({
            let before = merged_all(list, table, host);
            let after = merged_all(list, table.push(c), host);
            &&& r < before.len() ==> after.len() == before.len() && after[r].aliases == with_aliases(
                before[r].aliases,
                c.aliases,
            ) && after[r].name == before[r].name && after[r].comment == before[r].comment
                && after[r].launch_path == before[r].launch_path && after[r].target_path
                == before[r].target_path && after[r].icon == before[r].icon && forall|j: int|
                0 <= j < before.len() && j != r ==> #[trigger] after[j] == before[j]
            &&& r == before.len() && resolved(c.cmd, host) is None ==> after == before
            &&& r == before.len() && resolved(c.cmd, host) is Some ==> after.len() == before.len()
                + 1 && after.take(r) == before && after[r].name == c.name && after[r].comment
                == Some("系统命令"@) && Some(after[r].launch_path) == resolved(c.cmd, host)
                && after[r].target_path == after[r].launch_path && after[r].icon is None
                && after[r].aliases == c.aliases
        }),
{
    let before = merged_all(list, table, host);
    let after = merged_all(list, table.push(c), host);
    let key = name_key(c.name);
    assert(table.push(c).drop_last() =~= table);
    lemma_place_of(before, key);
    let place = place_of(before, key);
    if place < r {
        assert(name_key(before[place].name) != key);
    }
    if r == before.len() && resolved(c.cmd, host) is Some {
        assert(after.take(r) =~= before);
    }
}

/// The place that a key is found at is that of its first occurrence, and the number of keys
/// where it does not occur.
pub proof fn law_first_key_is_found(keys: Seq<Seq<char>>, key: Seq<char>, at: int)
    requires
        0 <= at <= keys.len(),
        forall|i: int| 0 <= i < at ==> #[trigger] keys[i] != key,
        at < keys.len() ==> keys[at] == key,
    ensures
        place_in(keys, key) == at,
{
    lemma_place_in(keys, key);
    let place = place_in(keys, key);
    if place < at {
        assert(keys[place] != key);
    }
}

/// Merging a command at a place of the entries or behind them.
pub proof fn law_merging_at_a_place(list: Seq<Row>, at: int, c: Command, host: Host)
    requires
        0 <= at <= list.len(),
    ensures
        at < list.len() ==> merged_at(list, at, c, host).len() == list.len() && merged_at(
            list,
            at,
            c,
            host,
        )[at].aliases == with_aliases(list[at].aliases, c.aliases) && same_but_more_aliases(
            list[at],
            merged_at(list, at, c, host)[at],
        ) && forall|j: int|
            0 <= j < list.len() && j != at ==> #[trigger] merged_at(list, at, c, host)[j] == list[j],
        at == list.len() && resolved(c.cmd, host) is None ==> merged_at(list, at, c, host) == list,
        at == list.len() && resolved(c.cmd, host) is Some ==> merged_at(list, at, c, host)
            == list.push(
            Row {
                name: c.name,
                comment: Some("系统命令"@),
                launch_path: resolved(c.cmd, host)->0,
                target_path: resolved(c.cmd, host)->0,
                icon: None,
                aliases: c.aliases,
            },
        ),
{
    if at < list.len() {
        lemma_with_aliases(list[at].aliases, c.aliases);
    }
}

proof fn lemma_under_all(dirs: Seq<Seq<char>>, names: Seq<Seq<char>>, d: int, e: int)
    ensures
        under_all(dirs, names).len() == dirs.len() * names.len(),
        0 <= d < dirs.len() && 0 <= e < names.len() ==> 0 <= d * names.len() + e < under_all(
            dirs,
            names,
        ).len() && under_all(dirs, names)[d * names.len() + e] == joined(dirs[d], names[e]),
    decreases dirs.len(),
{
    if dirs.len() > 0 {
        let head = dirs.drop_last();
        let n = names.len() as int;
        let k = dirs.len() as int;
        lemma_under_all(head, names, d, e);
        assert(k * n == (k - 1) * n + n) by (nonlinear_arith);
        if 0 <= d < k && 0 <= e < n {
            assert(0 <= d * n && d * n + n <= k * n) by (nonlinear_arith)
                requires
                    0 <= d < k,
                    0 <= e < n,
            ;
            if d < k - 1 {
                assert(d * n + n <= (k - 1) * n) by (nonlinear_arith)
                    requires
                        0 <= d < k - 1,
                        0 <= e < n,
                ;
            }
        }
    } else {
        assert(dirs.len() * names.len() == 0) by (nonlinear_arith)
            requires
                dirs.len() == 0,
        ;
    }
}

/// The paths to try for a bare command: in each folder of the search path, in order, the
/// command with each of the extensions, in order.
pub proof fn law_bare_command_is_tried(
    cmd: Seq<char>,
    dirs: Seq<Seq<char>>,
    exts: Seq<Seq<char>>,
    d: int,
    e: int,
)
    requires
        !cmd.contains('\\'),
        !cmd.contains('/'),
        extension_of(cmd) is None,
        0 <= d < dirs.len(),
        0 <= e < exts.len(),
    ensures
        candidates(cmd, dirs, exts).len() == dirs.len() * exts.len(),
        0 <= d * exts.len() + e < candidates(cmd, dirs, exts).len(),
        candidates(cmd, dirs, exts)[d * exts.len() + e] == joined(dirs[d], cmd + exts[e]),
{
    lemma_under_all(dirs, file_names(cmd, exts), d, e);
}

/// The paths to try for a command with an extension: itself in each folder, in order.
pub proof fn law_full_command_is_tried(
    cmd: Seq<char>,
    dirs: Seq<Seq<char>>,
    exts: Seq<Seq<char>>,
    d: int,
)
    requires
        !cmd.contains('\\'),
        !cmd.contains('/'),
        extension_of(cmd) is Some,
        0 <= d < dirs.len(),
    ensures
        candidates(cmd, dirs, exts).len() == dirs.len(),
        candidates(cmd, dirs, exts)[d] == joined(dirs[d], cmd),
{
    let names = file_names(cmd, exts);
    lemma_under_all(dirs, names, d, 0);
    assert(names == seq![cmd]);
    assert(dirs.len() * names.len() == dirs.len() && d * names.len() == d) by (nonlinear_arith)
        requires
            names.len() == 1,
    ;
}

/// A command that is a path is tried as it is and nowhere else.
pub proof fn law_path_is_tried_as_it_is(cmd: Seq<char>, host: Host)
    requires
        cmd.contains('\\') || cmd.contains('/'),
    ensures
        host.files.contains(cmd) ==> resolved(cmd, host) == Some(cmd),
        !host.files.contains(cmd) ==> resolved(cmd, host) is None,
{
    let paths = candidates(cmd, host.dirs, host.exts);
    assert(paths == seq![cmd]);
    assert(first_file(paths.drop_first(), host.files) is None);
}

/// A bare command resolves to the file in the first folder that has it, and there with the
/// first extension that it has: where `d` and `e` are those, nothing else plays a part.
pub proof fn law_search_order(cmd: Seq<char>, host: Host, d: int, e: int)
    requires
        !cmd.contains('\\'),
        !cmd.contains('/'),
        extension_of(cmd) is None,
        0 <= d < host.dirs.len(),
        0 <= e < host.exts.len(),
        host.files.contains(joined(host.dirs[d], cmd + host.exts[e])),
        forall|a: int, b: int|
            0 <= a < host.dirs.len() && 0 <= b < host.exts.len() && (a < d || (a == d && b < e))
                ==> !host.files.contains(
                joined(#[trigger] host.dirs[a], cmd + #[trigger] host.exts[b]),
            ),
    ensures
        resolved(cmd, host) == Some(joined(host.dirs[d], cmd + host.exts[e])),
{
    let paths = candidates(cmd, host.dirs, host.exts);
    let n = host.exts.len() as int;
    let k = host.dirs.len() as int;
    let at = d * n + e;
    law_bare_command_is_tried(cmd, host.dirs, host.exts, d, e);
    assert forall|j: int| 0 <= j < at implies !host.files.contains(#[trigger] paths[j]) by {
        let a = j / n;
        let b = j % n;
        assert(j == a * n + b && 0 <= b < n && 0 <= a) by (nonlinear_arith)
            requires
                n > 0,
                j >= 0,
                a == j / n,
                b == j % n,
        ;
        assert(a < d || (a == d && b < e)) by (nonlinear_arith)
            requires
                n > 0,
                j == a * n + b,
                0 <= b < n,
                j < d * n + e,
                0 <= e < n,
        ;
        law_bare_command_is_tried(cmd, host.dirs, host.exts, a, b);
        assert(paths[a * n + b] == joined(host.dirs[a], cmd + host.exts[b]));
    }
    law_first_file_wins(cmd, host);
    match resolved(cmd, host) {
        Some(full) => {
            let i = choose|i: int|
                0 <= i < paths.len() && #[trigger] paths[i] == full && host.files.contains(full)
                    && forall|j: int| 0 <= j < i ==> !host.files.contains(#[trigger] paths[j]);
            assert(host.files.contains(paths[at]));
            assert(host.files.contains(paths[i]));
        },
        None => {
            assert(host.files.contains(paths[at]));
        },
    }
}

/// Extensions are taken piece by piece: a blank piece is left out, any other is kept without
/// the white space around it.
pub proof fn law_one_more_extension(pieces: Seq<Seq<char>>, piece: Seq<char>)
    ensures
        trimmed_texts(Seq::empty()).len() == 0,
        (forall|i: int| 0 <= i < piece.len() ==> is_white_space(#[trigger] piece[i]))
            ==> trimmed_texts(pieces.push(piece)) == trimmed_texts(pieces),
        (exists|i: int| 0 <= i < piece.len() && !is_white_space(#[trigger] piece[i]))
            ==> trimmed_texts(pieces.push(piece)) == trimmed_texts(pieces) + seq![trimmed(piece)],
{
    assert(pieces.push(piece).drop_last() =~= pieces);
    law_trimmed(piece);
    assert(trimmed_texts(pieces).push(trimmed(piece)) =~= trimmed_texts(pieces) + seq![
        trimmed(piece),
    ]);
}

/// The extensions stand between semicolons, and without a setting they are the four usual
/// ones.
pub proof fn law_extensions_of_a_setting(raw: Seq<char>)
    ensures
        extensions_in(Some(raw)) == trimmed_texts(split_on(raw, ';')),
        extensions_in(None) == extensions_in(Some(".COM;.EXE;.BAT;.CMD"@)),
{
}

/// The folder of the app execution aliases, under a folder that does not begin with two
/// separators nor end in one.
pub proof fn law_alias_folder(local: Seq<char>)
    requires
        local.len() > 2,
        !(local[0] == '\\' || local[0] == '/') || !(local[1] == '\\' || local[1] == '/'),
        local.last() != '\\' && local.last() != '/',
    ensures
        alias_folder(local) == local + "\\Microsoft\\WindowsApps"@,
{
    reveal_strlit("Microsoft");
    reveal_strlit("WindowsApps");
    reveal_strlit("\\Microsoft\\WindowsApps");
    law_joined_under_a_local_folder(local, "Microsoft"@);
    let first = local + seq!['\\'] + "Microsoft"@;
    law_joined_under_a_local_folder(first, "WindowsApps"@);
    assert(first + seq!['\\'] + "WindowsApps"@ =~= local + "\\Microsoft\\WindowsApps"@);
}

/// Every command of the table is found by the name that it is called by: one of its aliases
/// is the command, or what stands before its dot.
pub proof fn law_commands_are_found_by_their_own_name(k: int)
    requires
        0 <= k < command_table().len(),
    ensures
        exists|a: int|
            0 <= a < command_table()[k].aliases.len() && (#[trigger] command_table()[k].aliases[a]
                == command_table()[k].cmd || (command_table()[k].aliases[a].len()
                < command_table()[k].cmd.len() && command_table()[k].aliases[a]
                == command_table()[k].cmd.take(command_table()[k].aliases[a].len() as int)
                && command_table()[k].cmd[command_table()[k].aliases[a].len() as int] == '.')),
{
    reveal_strlit("calc");
    reveal_strlit("calculator");
    reveal_strlit("notepad");
    reveal_strlit("mspaint");
    reveal_strlit("paint");
    reveal_strlit("snippingtool");
    reveal_strlit("screenshot");
    reveal_strlit("wt");
    reveal_strlit("terminal");
    reveal_strlit("taskmgr");
    reveal_strlit("task manager");
    reveal_strlit("cmd");
    reveal_strlit("command prompt");
    reveal_strlit("powershell");
    reveal_strlit("pwsh");
    reveal_strlit("regedit");
    reveal_strlit("registry");
    reveal_strlit("explorer");
    reveal_strlit("control");
    reveal_strlit("control panel");
    reveal_strlit("devmgmt.msc");
    reveal_strlit("devmgmt");
    reveal_strlit("device manager");
    reveal_strlit("diskmgmt.msc");
    reveal_strlit("diskmgmt");
    reveal_strlit("disk management");
    reveal_strlit("services.msc");
    reveal_strlit("services");
    reveal_strlit("eventvwr.msc");
    reveal_strlit("eventvwr");
    reveal_strlit("compmgmt.msc");
    reveal_strlit("compmgmt");
    reveal_strlit("taskschd.msc");
    reveal_strlit("taskschd");
    reveal_strlit("wf.msc");
    reveal_strlit("firewall");
    reveal_strlit("certmgr.msc");
    reveal_strlit("certmgr");
    reveal_strlit("msconfig");
    reveal_strlit("msinfo32");
    reveal_strlit("resmon");
    reveal_strlit("perfmon");
    reveal_strlit("cleanmgr");
    reveal_strlit("dfrgui");
    reveal_strlit("defrag");
    reveal_strlit("mstsc");
    reveal_strlit("rdp");
    reveal_strlit("dxdiag");
    reveal_strlit("sndvol");
    reveal_strlit("volume");
    reveal_strlit("charmap");
    reveal_strlit("osk");
    reveal_strlit("magnify");
    reveal_strlit("psr");
    reveal_strlit("winver");
    reveal_strlit("about windows");
    reveal_strlit("appwiz.cpl");
    reveal_strlit("appwiz");
    reveal_strlit("uninstall");
    reveal_strlit("sysdm.cpl");
    reveal_strlit("sysdm");
    reveal_strlit("ncpa.cpl");
    reveal_strlit("ncpa");
    reveal_strlit("powercfg.cpl");
    reveal_strlit("powercfg");
    let c = command_table()[k];
    let a: int = if k == 0 || k == 2 || k == 4 || k == 24 {
        1
    } else {
        0
    };
    assert(0 <= a < c.aliases.len());
    if c.aliases[a] != c.cmd {
        assert(c.aliases[a] =~= c.cmd.take(c.aliases[a].len() as int));
    }
    assert(command_table()[k].aliases[a] == c.aliases[a]);
}

} // verus!
