//! The built-in system entries: settings pages and shell folders, as a fixed source of
//! the index.
//!
//! A settings page is a name and a URI that launches it, like a shortcut or a portable
//! exe, only that it comes with the system. Only pages that are there on Windows 10 and
//! Windows 11 alike are listed.

use crate::launch::system_uri;
use vstd::prelude::*;

verus! {

/// A system entry: the name it is searched by, and the URI that opens it.
#[derive(Clone, Copy, Debug)]
pub struct SystemFeature {
    pub name: &'static str,
    pub uri: &'static str,
}

/// The names and URIs of the system entries.
pub open spec fn features() -> Seq<(Seq<char>, Seq<char>)> {
    seq![
        ("个性化"@, "ms-settings:personalization"@),
        ("显示"@, "ms-settings:display"@),
        ("声音"@, "ms-settings:sound"@),
        ("网络"@, "ms-settings:network-status"@),
        ("蓝牙"@, "ms-settings:bluetooth"@),
        ("存储"@, "ms-settings:storagesense"@),
        ("关于"@, "ms-settings:about"@),
        ("默认应用"@, "ms-settings:defaultapps"@),
        ("电源和睡眠"@, "ms-settings:powersleep"@),
        ("通知"@, "ms-settings:notifications"@),
        ("锁屏"@, "ms-settings:lockscreen"@),
        ("颜色"@, "ms-settings:colors"@),
        ("任务栏"@, "ms-settings:taskbar"@),
        ("主题"@, "ms-settings:themes"@),
        ("日期和时间"@, "ms-settings:dateandtime"@),
        ("打印机和扫描仪"@, "ms-settings:printers"@),
        ("Windows 更新"@, "ms-settings:windowsupdate"@),
        ("此电脑"@, "::{20D04FE0-3AEA-1069-A2D8-08002B30309D}"@),
        ("回收站"@, "::{645FF040-5081-101B-9F08-00AA002F954E}"@),
    ]
}

/// The built-in system entries. No URI occurs twice.
pub fn builtin_system_features() -> (r: &'static [SystemFeature])
    ensures
        r@.len() == features().len(),
        forall|i: int|
            0 <= i < r@.len() ==> ((#[trigger] r@[i]).name@, r@[i].uri@) == features()[i],
{
    &[
        SystemFeature { name: "个性化", uri: "ms-settings:personalization" },
        SystemFeature { name: "显示", uri: "ms-settings:display" },
        SystemFeature { name: "声音", uri: "ms-settings:sound" },
        SystemFeature { name: "网络", uri: "ms-settings:network-status" },
        SystemFeature { name: "蓝牙", uri: "ms-settings:bluetooth" },
        SystemFeature { name: "存储", uri: "ms-settings:storagesense" },
        SystemFeature { name: "关于", uri: "ms-settings:about" },
        SystemFeature { name: "默认应用", uri: "ms-settings:defaultapps" },
        SystemFeature { name: "电源和睡眠", uri: "ms-settings:powersleep" },
        SystemFeature { name: "通知", uri: "ms-settings:notifications" },
        SystemFeature { name: "锁屏", uri: "ms-settings:lockscreen" },
        SystemFeature { name: "颜色", uri: "ms-settings:colors" },
        SystemFeature { name: "任务栏", uri: "ms-settings:taskbar" },
        SystemFeature { name: "主题", uri: "ms-settings:themes" },
        SystemFeature { name: "日期和时间", uri: "ms-settings:dateandtime" },
        SystemFeature { name: "打印机和扫描仪", uri: "ms-settings:printers" },
        SystemFeature { name: "Windows 更新", uri: "ms-settings:windowsupdate" },
        SystemFeature { name: "此电脑", uri: "::{20D04FE0-3AEA-1069-A2D8-08002B30309D}" },
        SystemFeature { name: "回收站", uri: "::{645FF040-5081-101B-9F08-00AA002F954E}" },
    ]
}

/// No two system entries have the same URI, and each URI is recognized as a system entry.
pub proof fn law_uris_are_distinct_system_uris()
    ensures
        forall|i: int, j: int|
            0 <= i < j < features().len() ==> (#[trigger] features()[i]).1 != (
            #[trigger] features()[j]).1,
        forall|i: int| 0 <= i < features().len() ==> system_uri((#[trigger] features()[i]).1),
{
    reveal_strlit("ms-settings:");
    reveal_strlit("::{");
    reveal_strlit("ms-settings:personalization");
    reveal_strlit("ms-settings:display");
    reveal_strlit("ms-settings:sound");
    reveal_strlit("ms-settings:network-status");
    reveal_strlit("ms-settings:bluetooth");
    reveal_strlit("ms-settings:storagesense");
    reveal_strlit("ms-settings:about");
    reveal_strlit("ms-settings:defaultapps");
    reveal_strlit("ms-settings:powersleep");
    reveal_strlit("ms-settings:notifications");
    reveal_strlit("ms-settings:lockscreen");
    reveal_strlit("ms-settings:colors");
    reveal_strlit("ms-settings:taskbar");
    reveal_strlit("ms-settings:themes");
    reveal_strlit("ms-settings:dateandtime");
    reveal_strlit("ms-settings:printers");
    reveal_strlit("ms-settings:windowsupdate");
    reveal_strlit("::{20D04FE0-3AEA-1069-A2D8-08002B30309D}");
    reveal_strlit("::{645FF040-5081-101B-9F08-00AA002F954E}");
    let mark = |u: Seq<char>| (u.len(), u[3], u[12], u[13]);
    assert(mark(features()[0].1) == (27nat, 's', 'p', 'e'));
    assert(mark(features()[1].1) == (19nat, 's', 'd', 'i'));
    assert(mark(features()[2].1) == (17nat, 's', 's', 'o'));
    assert(mark(features()[3].1) == (26nat, 's', 'n', 'e'));
    assert(mark(features()[4].1) == (21nat, 's', 'b', 'l'));
    assert(mark(features()[5].1) == (24nat, 's', 's', 't'));
    assert(mark(features()[6].1) == (17nat, 's', 'a', 'b'));
    assert(mark(features()[7].1) == (23nat, 's', 'd', 'e'));
    assert(mark(features()[8].1) == (22nat, 's', 'p', 'o'));
    assert(mark(features()[9].1) == (25nat, 's', 'n', 'o'));
    assert(mark(features()[10].1) == (22nat, 's', 'l', 'o'));
    assert(mark(features()[11].1) == (18nat, 's', 'c', 'o'));
    assert(mark(features()[12].1) == (19nat, 's', 't', 'a'));
    assert(mark(features()[13].1) == (18nat, 's', 't', 'h'));
    assert(mark(features()[14].1) == (23nat, 's', 'd', 'a'));
    assert(mark(features()[15].1) == (20nat, 's', 'p', 'r'));
    assert(mark(features()[16].1) == (25nat, 's', 'w', 'i'));
    assert(mark(features()[17].1) == (40nat, '2', '3', 'A'));
    assert(mark(features()[18].1) == (40nat, '6', '5', '0'));
    assert forall|i: int| 0 <= i < features().len() implies system_uri(
        (#[trigger] features()[i]).1,
    ) by {
        let u = features()[i].1;
        if i < 17 {
            assert(u.subrange(0, 12) =~= "ms-settings:"@);
        } else {
            assert(u.subrange(0, 3) =~= "::{"@);
        }
    }
}

} // verus!
